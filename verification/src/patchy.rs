use vstd::prelude::*;

use rayon::iter::{IntoParallelRefMutIterator, ParallelIterator};

use crate::hash::{blake3_128_of, compute_hash_strong, compute_hash_weak, rh_hash, Hash128};
use crate::hash::RollingHash;

verus! {

use vstd::arithmetic::div_mod::lemma_fundamental_div_mod_converse;
use vstd::math::min;

pub const DEFAULT_BLOCK_SIZE: usize = 2048;

/// A fingerprint of one contiguous region of a byte sequence.
pub struct Block {
    pub offset: u64,
    pub size: u32,
    pub hash_weak: u32,
    pub hash_strong: Hash128,
}

/// How many fixed-size blocks a sequence of the given length splits into.
pub open spec fn num_blocks(len: int, bs: int) -> int {
    (len + bs - 1) / bs
}

/// Where block `k` of a sequence of the given length ends.
pub open spec fn chunk_end(len: int, bs: int, k: int) -> int {
    min(k * bs + bs, len)
}

/// The bytes of block `k` of a sequence.
pub open spec fn chunk_of(data: Seq<u8>, bs: int, k: int) -> Seq<u8> {
    data.subrange(k * bs, chunk_end(data.len() as int, bs, k))
}

/// The block records the position of region `k` of a sequence of the given
/// length, with the hash fields not yet constrained.
pub open spec fn block_frames_chunk(len: int, bs: int, b: Block, k: int) -> bool {
    &&& b.offset == k * bs
    &&& b.size == chunk_end(len, bs, k) - k * bs
}

/// The block is exactly the fingerprint of region `k` of the sequence.
pub open spec fn block_is_chunk(data: Seq<u8>, bs: int, b: Block, k: int) -> bool {
    &&& block_frames_chunk(data.len() as int, bs, b, k)
    &&& b.hash_weak == rh_hash(chunk_of(data, bs, k))
    &&& b.hash_strong@ == blake3_128_of(chunk_of(data, bs, k))
}

/// The list is exactly the blockwise fingerprint of the sequence.
pub open spec fn blocks_of(data: Seq<u8>, bs: int, blocks: Seq<Block>) -> bool {
    &&& blocks.len() == num_blocks(data.len() as int, bs)
    &&& forall|k: int|
        0 <= k < blocks.len() ==> #[trigger] block_is_chunk(data, bs, blocks[k], k)
}

/// The weak and the strong hash of one range of a byte sequence.
pub fn hash_block_range(input: &[u8], offset: u64, size: u32) -> (r: (u32, Hash128))
    requires
        offset + size <= input@.len(),
    ensures
        r.0 == rh_hash(input@.subrange(offset as int, offset + size)),
        r.1@ == blake3_128_of(input@.subrange(offset as int, offset + size)),
{
    let len = input.len();
    let begin = offset as usize;
    let end = begin + size as usize;
    let chunk = &input[begin..end];
    (compute_hash_weak(chunk), compute_hash_strong(chunk))
}

/// Relies on rayon's par_iter_mut and for_each: the closure runs exactly once
/// on each element of the list, possibly on worker threads, and the list keeps
/// its length and order.
#[verifier::external_body]
fn fill_block_hashes(input: &[u8], blocks: &mut Vec<Block>)
    requires
        forall|k: int|
            0 <= k < old(blocks)@.len() ==> (#[trigger] old(blocks)@[k]).offset + old(
                blocks,
            )@[k].size <= input@.len(),
    ensures
        final(blocks)@.len() == old(blocks)@.len(),
        forall|k: int|
            0 <= k < old(blocks)@.len() ==> {
                &&& (#[trigger] final(blocks)@[k]).offset == old(blocks)@[k].offset
                &&& final(blocks)@[k].size == old(blocks)@[k].size
                &&& final(blocks)@[k].hash_weak == rh_hash(
                    input@.subrange(
                        old(blocks)@[k].offset as int,
                        old(blocks)@[k].offset + old(blocks)@[k].size,
                    ),
                )
                &&& final(blocks)@[k].hash_strong@ == blake3_128_of(
                    input@.subrange(
                        old(blocks)@[k].offset as int,
                        old(blocks)@[k].offset + old(blocks)@[k].size,
                    ),
                )
            },
{
    blocks.par_iter_mut().for_each(|block| {
        let (hash_weak, hash_strong) = hash_block_range(input, block.offset, block.size);
        block.hash_weak = hash_weak;
        block.hash_strong = hash_strong;
    });
}

/// Split the input into consecutive blocks of `block_size` bytes (the last one
/// possibly shorter) and fingerprint each block; the hashes are computed on a
/// worker pool.
pub fn compute_blocks(input: &[u8], block_size: usize) -> (r: Vec<Block>)
    requires
        1 <= block_size,
        block_size <= u32::MAX,
    ensures
        blocks_of(input@, block_size as int, r@),
{
    let ghost bs = block_size as int;
    let len = input.len();
    let mut result: Vec<Block> = Vec::new();
    let mut off: usize = 0;
    proof {
        assert(result@.len() == 0);
        assert(0int * bs == 0) by (nonlinear_arith);
    }
    while off < len
        invariant
            len == input@.len(),
            1 <= block_size <= u32::MAX,
            bs == block_size as int,
            off <= len,
            off == result@.len() * bs || (off == len && result@.len() == num_blocks(
                len as int,
                bs,
            )),
            forall|k: int|
                0 <= k < result@.len() ==> block_frames_chunk(
                    len as int,
                    bs,
                    #[trigger] result@[k],
                    k,
                ),
        decreases len - off,
    {
        let ghost k = result@.len() as int;
        proof {
            // off == k * bs here: the other disjunct forces off == len
            assert((k + 1) * bs == k * bs + bs) by (nonlinear_arith);
        }
        let remaining = len - off;
        let size = if remaining < block_size {
            remaining
        } else {
            block_size
        };
        result.push(
            Block {
                offset: off as u64,
                size: size as u32,
                hash_weak: 0,
                hash_strong: Hash128::new_zero(),
            },
        );
        off = off + size;
        proof {
            if off == len && size < block_size {
                // the final short block: the count is the rounded-up quotient
                lemma_fundamental_div_mod_converse(
                    len as int + bs - 1,
                    bs,
                    k + 1,
                    len - k * bs - 1,
                );
                assert(result@.len() == num_blocks(len as int, bs));
            }
        }
    }
    proof {
        if len == 0 {
            lemma_fundamental_div_mod_converse(bs - 1, bs, 0, bs - 1);
            assert(num_blocks(0, bs) == 0);
            if off == result@.len() * bs {
                assert(result@.len() == 0) by (nonlinear_arith)
                    requires
                        result@.len() * bs == 0,
                        bs >= 1,
                ;
            }
        } else if off == result@.len() * bs {
            // the input split evenly: the rounding term is swallowed
            let k = result@.len() as int;
            lemma_fundamental_div_mod_converse(len as int + bs - 1, bs, k, bs - 1);
        }
        assert(result@.len() == num_blocks(len as int, bs));
    }
    fill_block_hashes(input, &mut result);
    proof {
        assert forall|k: int| 0 <= k < result@.len() implies #[trigger] block_is_chunk(
            input@,
            bs,
            result@[k],
            k,
        ) by {
            assert(chunk_of(input@, bs, k) == input@.subrange(
                result@[k].offset as int,
                result@[k].offset + result@[k].size,
            ));
        }
    }
    result
}

/// A directive to copy `size` bytes from offset `source` of some source buffer
/// to offset `target` of the buffer under reconstruction.
#[derive(Clone, Copy, Debug, PartialEq, Eq, Structural)]
pub struct CopyCmd {
    pub source: u64,
    pub target: u64,
    pub size: u32,
}

/// The command reads inside a source buffer of the given length.
pub open spec fn cmd_src_in(c: CopyCmd, src_len: int) -> bool {
    c.source + c.size <= src_len
}

/// The command writes inside a destination buffer of the given length.
pub open spec fn cmd_dst_in(c: CopyCmd, dst_len: int) -> bool {
    c.target + c.size <= dst_len
}

/// The destination buffer after one copy command: the target range holds the
/// source range's bytes, everything else is unchanged.
pub open spec fn write_cmd(dst: Seq<u8>, src: Seq<u8>, c: CopyCmd) -> Seq<u8> {
    Seq::new(
        dst.len(),
        |i: int|
            if c.target <= i < c.target + c.size {
                src[c.source + (i - c.target)]
            } else {
                dst[i]
            },
    )
}

/// The destination buffer after a list of copy commands, applied in order.
pub open spec fn apply_cmds(dst: Seq<u8>, src: Seq<u8>, cmds: Seq<CopyCmd>) -> Seq<u8>
    decreases cmds.len(),
{
    if cmds.len() == 0 {
        dst
    } else {
        write_cmd(apply_cmds(dst, src, cmds.drop_last()), src, cmds.last())
    }
}

impl CopyCmd {
    /// Copy the command's source range of `source` onto its target range of
    /// `target`.
    pub fn execute(&self, target: &mut Vec<u8>, source: &[u8])
        requires
            cmd_src_in(*self, source@.len() as int),
            cmd_dst_in(*self, old(target)@.len() as int),
        ensures
            final(target)@ == write_cmd(old(target)@, source@, *self),
    {
        let source_len = source.len();
        let target_len = target.len();
        let s0 = self.source as usize;
        let t0 = self.target as usize;
        let n = self.size as usize;
        let mut i: usize = 0;
        while i < n
            invariant
                source_len == source@.len(),
                target_len == old(target)@.len(),
                s0 + n <= source_len,
                t0 + n <= target_len,
                i <= n,
                s0 == self.source,
                t0 == self.target,
                n == self.size,
                target@.len() == old(target)@.len(),
                forall|j: int|
                    0 <= j < target@.len() ==> #[trigger] target@[j] == (if t0 <= j < t0 + i {
                        source@[s0 + (j - t0)]
                    } else {
                        old(target)@[j]
                    }),
            decreases n - i,
        {
            let b = source[s0 + i];
            target[t0 + i] = b;
            i = i + 1;
        }
        proof {
            assert(target@ =~= write_cmd(old(target)@, source@, *self));
        }
    }
}

/// The instruction lists the differ produces: copies sourced from the base
/// sequence, and residual copies sourced from the other sequence itself.
pub struct PatchCommands {
    pub base: Vec<CopyCmd>,
    pub other: Vec<CopyCmd>,
}

/// The sum of the byte counts of a list of copy commands.
pub open spec fn sizes_sum(cmds: Seq<CopyCmd>) -> int
    decreases cmds.len(),
{
    if cmds.len() == 0 {
        0
    } else {
        sizes_sum(cmds.drop_last()) + cmds.last().size
    }
}

pub proof fn lemma_sizes_sum_take_succ(cmds: Seq<CopyCmd>, i: int)
    requires
        0 <= i < cmds.len(),
    ensures
        sizes_sum(cmds.take(i + 1)) == sizes_sum(cmds.take(i)) + cmds[i].size,
{
    assert(cmds.take(i + 1).drop_last() =~= cmds.take(i));
    assert(cmds.take(i + 1).last() == cmds[i]);
}

pub proof fn lemma_sizes_sum_take_le(cmds: Seq<CopyCmd>, i: int)
    requires
        0 <= i <= cmds.len(),
    ensures
        sizes_sum(cmds.take(i)) <= sizes_sum(cmds),
    decreases cmds.len() - i,
{
    if i == cmds.len() {
        assert(cmds.take(i) =~= cmds);
    } else {
        lemma_sizes_sum_take_succ(cmds, i);
        lemma_sizes_sum_take_le(cmds, i + 1);
    }
}

fn compute_copy_size(cmds: &[CopyCmd]) -> (r: usize)
    requires
        sizes_sum(cmds@) <= usize::MAX,
    ensures
        r == sizes_sum(cmds@),
{
    let n = cmds.len();
    let mut result: usize = 0;
    let mut i: usize = 0;
    while i < n
        invariant
            n == cmds@.len(),
            i <= n,
            result == sizes_sum(cmds@.take(i as int)),
            sizes_sum(cmds@) <= usize::MAX,
        decreases n - i,
    {
        proof {
            lemma_sizes_sum_take_succ(cmds@, i as int);
            lemma_sizes_sum_take_le(cmds@, i + 1);
        }
        result = result + cmds[i].size as usize;
        i = i + 1;
    }
    proof {
        assert(cmds@.take(n as int) =~= cmds@);
    }
    result
}

impl PatchCommands {
    pub fn new() -> (r: PatchCommands)
        ensures
            r.base@.len() == 0,
            r.other@.len() == 0,
    {
        PatchCommands { base: Vec::new(), other: Vec::new() }
    }

    /// How many bytes the commands read out of the base sequence.
    pub fn need_bytes_from_base(&self) -> (r: usize)
        requires
            sizes_sum(self.base@) <= usize::MAX,
        ensures
            r == sizes_sum(self.base@),
    {
        compute_copy_size(self.base.as_slice())
    }

    /// How many bytes the commands read out of the other sequence: the size of
    /// the residual the patch must carry.
    pub fn need_bytes_from_other(&self) -> (r: usize)
        requires
            sizes_sum(self.other@) <= usize::MAX,
        ensures
            r == sizes_sum(self.other@),
    {
        compute_copy_size(self.other.as_slice())
    }

    /// Both lists empty: the differ found base and other bytewise identical.
    pub fn is_synchronized(&self) -> (r: bool)
        ensures
            r == (self.base@.len() == 0 && self.other@.len() == 0),
    {
        self.base.is_empty() && self.other.is_empty()
    }
}

/// The sum of the byte counts of a list of blocks.
pub open spec fn blocks_sizes_sum(blocks: Seq<Block>) -> int
    decreases blocks.len(),
{
    if blocks.len() == 0 {
        0
    } else {
        blocks_sizes_sum(blocks.drop_last()) + blocks.last().size
    }
}

pub proof fn lemma_blocks_sizes_sum_take_succ(blocks: Seq<Block>, i: int)
    requires
        0 <= i < blocks.len(),
    ensures
        blocks_sizes_sum(blocks.take(i + 1)) == blocks_sizes_sum(blocks.take(i))
            + blocks[i].size,
{
    assert(blocks.take(i + 1).drop_last() =~= blocks.take(i));
    assert(blocks.take(i + 1).last() == blocks[i]);
}

pub proof fn lemma_blocks_sizes_sum_take_le(blocks: Seq<Block>, i: int)
    requires
        0 <= i <= blocks.len(),
    ensures
        blocks_sizes_sum(blocks.take(i)) <= blocks_sizes_sum(blocks),
    decreases blocks.len() - i,
{
    if i == blocks.len() {
        assert(blocks.take(i) =~= blocks);
    } else {
        lemma_blocks_sizes_sum_take_succ(blocks, i);
        lemma_blocks_sizes_sum_take_le(blocks, i + 1);
    }
}

/// The rounded-up block count times the block size reaches the length, and
/// one block fewer does not.
pub proof fn lemma_num_blocks_bounds(len: int, bs: int)
    requires
        0 <= len,
        1 <= bs,
    ensures
        num_blocks(len, bs) * bs >= len,
        num_blocks(len, bs) * bs < len + bs,
        len > 0 ==> (num_blocks(len, bs) - 1) * bs < len,
{
    let q = num_blocks(len, bs);
    vstd::arithmetic::div_mod::lemma_fundamental_div_mod(len + bs - 1, bs);
    let r = (len + bs - 1) % bs;
    assert(len + bs - 1 == bs * q + r);
    assert(bs * q == q * bs) by (nonlinear_arith);
    assert((q - 1) * bs == q * bs - bs) by (nonlinear_arith);
}

/// A fingerprint list of a sequence accounts for every byte of it.
pub proof fn lemma_blocks_sizes_sum_shaped(data: Seq<u8>, bs: int, blocks: Seq<Block>, k: int)
    requires
        1 <= bs,
        blocks_of(data, bs, blocks),
        0 <= k <= blocks.len(),
    ensures
        blocks_sizes_sum(blocks.take(k)) == min(k * bs, data.len() as int),
    decreases k,
{
    if k == 0 {
        assert(blocks.take(0) =~= Seq::<Block>::empty());
        assert(0int * bs == 0) by (nonlinear_arith);
    } else {
        lemma_blocks_sizes_sum_shaped(data, bs, blocks, k - 1);
        lemma_blocks_sizes_sum_take_succ(blocks, k - 1);
        lemma_num_blocks_bounds(data.len() as int, bs);
        assert(block_is_chunk(data, bs, blocks[k - 1], k - 1));
        // block k-1 starts strictly inside the data
        vstd::arithmetic::mul::lemma_mul_inequality(k - 1, num_blocks(data.len() as int, bs) - 1, bs);
        assert((k - 1) * bs + bs == k * bs) by (nonlinear_arith);
    }
}

/// Some window of at most `bs` bytes at offset `off` of `base` carries the
/// strong hash `h`.
pub open spec fn match_evidence(base: Seq<u8>, bs: int, h: Seq<u8>, off: u64) -> bool {
    exists|w: int|
        1 <= w <= bs && off + w <= base.len() && #[trigger] blake3_128_of(
            base.subrange(off as int, off + w),
        ) == h
}

/// Every entry of the match map points at a window of `base` that carries the
/// entry's strong hash.
pub open spec fn wf_match_map(m: Map<Seq<u8>, u64>, base: Seq<u8>, bs: int) -> bool {
    forall|h: Seq<u8>| #[trigger] m.contains_key(h) ==> match_evidence(base, bs, h, m[h])
}

/// One window of `input` per block, in order and disjoint, each of at most
/// `bs` bytes and carrying the block's strong hash. This is what the scan has
/// in hand when it reports base and other synchronized.
pub open spec fn windows_match_blocks(
    input: Seq<u8>,
    bs: int,
    blocks: Seq<Block>,
    starts: Seq<int>,
    ends: Seq<int>,
) -> bool {
    &&& starts.len() == blocks.len()
    &&& ends.len() == blocks.len()
    &&& forall|k: int|
        0 <= k < blocks.len() ==> {
            &&& 0 <= #[trigger] starts[k]
            &&& starts[k] < ends[k]
            &&& ends[k] <= input.len()
            &&& ends[k] - starts[k] <= bs
            &&& blake3_128_of(input.subrange(starts[k], ends[k])) == blocks[k].hash_strong@
        }
    &&& forall|k: int| 1 <= k < blocks.len() ==> ends[k - 1] <= #[trigger] starts[k]
}

/// The copy commands the differ emits for the blocks found in base: one per
/// matched block, in block order, sourced at the recorded base offset.
pub open spec fn emit_base(blocks: Seq<Block>, m: Map<Seq<u8>, u64>) -> Seq<CopyCmd>
    decreases blocks.len(),
{
    if blocks.len() == 0 {
        Seq::empty()
    } else {
        let pre = emit_base(blocks.drop_last(), m);
        let b = blocks.last();
        if m.contains_key(b.hash_strong@) {
            pre.push(CopyCmd { source: m[b.hash_strong@], target: b.offset, size: b.size })
        } else {
            pre
        }
    }
}

/// The residual copy commands for the blocks not found in base: one per
/// unmatched block, in block order, sourced at the block's own offset.
pub open spec fn emit_other(blocks: Seq<Block>, m: Map<Seq<u8>, u64>) -> Seq<CopyCmd>
    decreases blocks.len(),
{
    if blocks.len() == 0 {
        Seq::empty()
    } else {
        let pre = emit_other(blocks.drop_last(), m);
        let b = blocks.last();
        if m.contains_key(b.hash_strong@) {
            pre
        } else {
            pre.push(CopyCmd { source: b.offset, target: b.offset, size: b.size })
        }
    }
}

/// The last-entry-wins map a list of (strong hash, base offset) pairs stands
/// for.
pub open spec fn assoc_view(entries: Seq<(Hash128, u64)>) -> Map<Seq<u8>, u64>
    decreases entries.len(),
{
    if entries.len() == 0 {
        Map::empty()
    } else {
        assoc_view(entries.drop_last()).insert(entries.last().0@, entries.last().1)
    }
}

fn assoc_insert(entries: &mut Vec<(Hash128, u64)>, key: Hash128, val: u64)
    ensures
        assoc_view(final(entries)@) == assoc_view(old(entries)@).insert(key@, val),
{
    entries.push((key, val));
    proof {
        assert(entries@.drop_last() =~= old(entries)@);
    }
}

fn assoc_get(entries: &Vec<(Hash128, u64)>, key: &Hash128) -> (r: Option<u64>)
    ensures
        match r {
            Some(v) => assoc_view(entries@).contains_key(key@) && assoc_view(entries@)[key@]
                == v,
            None => !assoc_view(entries@).contains_key(key@),
        },
{
    let mut i = entries.len();
    proof {
        assert(entries@.take(i as int) =~= entries@);
    }
    while i > 0
        invariant
            i <= entries@.len(),
            assoc_view(entries@).contains_key(key@) == assoc_view(
                entries@.take(i as int),
            ).contains_key(key@),
            assoc_view(entries@).contains_key(key@) ==> assoc_view(entries@)[key@]
                == assoc_view(entries@.take(i as int))[key@],
        decreases i,
    {
        i = i - 1;
        proof {
            assert(entries@.take(i + 1).drop_last() =~= entries@.take(i as int));
            assert(entries@.take(i + 1).last() == entries@[i as int]);
        }
        if entries[i].0 == *key {
            return Some(entries[i].1);
        }
    }
    proof {
        assert(entries@.take(0) =~= Seq::<(Hash128, u64)>::empty());
    }
    None
}

fn weak_contains(list: &Vec<u32>, x: u32) -> (r: bool)
    ensures
        r == list@.contains(x),
{
    let n = list.len();
    let mut i: usize = 0;
    while i < n
        invariant
            i <= n,
            n == list@.len(),
            forall|j: int| 0 <= j < i ==> list@[j] != x,
        decreases n - i,
    {
        if list[i] == x {
            return true;
        }
        i = i + 1;
    }
    false
}

fn strong_contains(list: &Vec<Hash128>, h: &Hash128) -> (r: bool)
    ensures
        r == exists|j: int| 0 <= j < list@.len() && (#[trigger] list@[j])@ == h@,
{
    let n = list.len();
    let mut i: usize = 0;
    while i < n
        invariant
            i <= n,
            n == list@.len(),
            forall|j: int| 0 <= j < i ==> (#[trigger] list@[j])@ != h@,
        decreases n - i,
    {
        if list[i] == *h {
            return true;
        }
        i = i + 1;
    }
    false
}

fn is_synchronized(sequence: &[Hash128], blocks: &[Block]) -> (r: bool)
    ensures
        r == (sequence@.len() == blocks@.len() && forall|j: int|
            0 <= j < sequence@.len() ==> (#[trigger] sequence@[j])@ == blocks@[j].hash_strong@),
{
    let n = sequence.len();
    if n != blocks.len() {
        return false;
    }
    let mut i: usize = 0;
    while i < n
        invariant
            i <= n,
            n == sequence@.len() == blocks@.len(),
            forall|j: int| 0 <= j < i ==> (#[trigger] sequence@[j])@ == blocks@[j].hash_strong@,
        decreases n - i,
    {
        if !(sequence[i] == blocks[i].hash_strong) {
            return false;
        }
        i = i + 1;
    }
    true
}

/// Scan `input` with a sliding window, record every window whose hashes match
/// one of `other_blocks`, and emit one copy command per block: from base where
/// the block's content was found, from other where it was not. Returns the
/// empty command pair when the scan shows base and other bytewise identical.
pub fn compute_diff(input: &[u8], other_blocks: &[Block], block_size: usize) -> (r:
    PatchCommands)
    requires
        1 <= block_size,
        block_size <= u32::MAX,
        blocks_sizes_sum(other_blocks@) <= usize::MAX,
        input@.len() + u32::MAX <= u64::MAX,
        forall|k: int|
            0 <= k < other_blocks@.len() ==> (#[trigger] other_blocks@[k]).offset
                + other_blocks@[k].size <= u64::MAX,
    ensures
        (r.base@.len() == 0 && r.other@.len() == 0 && input@.len() == blocks_sizes_sum(
            other_blocks@,
        ) && exists|starts: Seq<int>, ends: Seq<int>|
            #[trigger] windows_match_blocks(
                input@,
                block_size as int,
                other_blocks@,
                starts,
                ends,
            )) || (exists|m: Map<Seq<u8>, u64>|
            {
                &&& #[trigger] wf_match_map(m, input@, block_size as int)
                &&& r.base@ == emit_base(other_blocks@, m)
                &&& r.other@ == emit_other(other_blocks@, m)
            }),
        blocks_of(input@, block_size as int, other_blocks@) ==> (r.base@.len() == 0
            && r.other@.len() == 0),
        cmds_bounded(r.base@),
        cmds_bounded(r.other@),
{
    let ghost bs = block_size as int;
    let ghost shaped = blocks_of(input@, bs, other_blocks@);
    let input_len = input.len();
    let nblocks = other_blocks.len();
    let mut weak_list: Vec<u32> = Vec::new();
    let mut strong_list: Vec<Hash128> = Vec::new();
    let mut other_len: usize = 0;
    let mut k: usize = 0;
    while k < nblocks
        invariant
            nblocks == other_blocks@.len(),
            k <= nblocks,
            weak_list@.len() == k,
            strong_list@.len() == k,
            forall|j: int| 0 <= j < k ==> #[trigger] weak_list@[j] == other_blocks@[j].hash_weak,
            forall|j: int|
                0 <= j < k ==> #[trigger] strong_list@[j] == other_blocks@[j].hash_strong,
            other_len == blocks_sizes_sum(other_blocks@.take(k as int)),
            blocks_sizes_sum(other_blocks@) <= usize::MAX,
        decreases nblocks - k,
    {
        proof {
            lemma_blocks_sizes_sum_take_succ(other_blocks@, k as int);
            lemma_blocks_sizes_sum_take_le(other_blocks@, k + 1);
        }
        let b = &other_blocks[k];
        weak_list.push(b.hash_weak);
        strong_list.push(b.hash_strong);
        other_len = other_len + b.size as usize;
        k = k + 1;
    }
    proof {
        assert(other_blocks@.take(nblocks as int) =~= other_blocks@);
    }
    let mut rolling_hash = RollingHash::new();
    let mut window_begin: usize = 0;
    let mut window_end: usize = 0;
    let mut sequence: Vec<Hash128> = Vec::new();
    let mut entries: Vec<(Hash128, u64)> = Vec::new();
    let ghost mut starts: Seq<int> = Seq::empty();
    let ghost mut ends: Seq<int> = Seq::empty();
    proof {
        assert(input@.subrange(0, 0) =~= Seq::<u8>::empty());
        assert(0int * bs == 0) by (nonlinear_arith);
    }
    while window_begin < input_len
        invariant
            input_len == input@.len(),
            bs == block_size as int,
            1 <= block_size <= u32::MAX,
            shaped == blocks_of(input@, bs, other_blocks@),
            nblocks == other_blocks@.len(),
            weak_list@.len() == nblocks,
            strong_list@.len() == nblocks,
            forall|j: int|
                0 <= j < nblocks ==> #[trigger] weak_list@[j] == other_blocks@[j].hash_weak,
            forall|j: int|
                0 <= j < nblocks ==> #[trigger] strong_list@[j] == other_blocks@[j].hash_strong,
            window_begin <= window_end <= input_len,
            window_end - window_begin <= block_size,
            rolling_hash.wf(),
            rolling_hash.window@ == input@.subrange(window_begin as int, window_end as int),
            wf_match_map(assoc_view(entries@), input@, bs),
            starts.len() == sequence@.len(),
            ends.len() == sequence@.len(),
            forall|j: int|
                0 <= j < sequence@.len() ==> {
                    &&& 0 <= #[trigger] starts[j]
                    &&& starts[j] < ends[j]
                    &&& ends[j] <= input_len
                    &&& ends[j] - starts[j] <= block_size
                    &&& blake3_128_of(input@.subrange(starts[j], ends[j])) == sequence@[j]@
                },
            forall|j: int| 1 <= j < sequence@.len() ==> ends[j - 1] <= #[trigger] starts[j],
            sequence@.len() > 0 ==> ends[sequence@.len() - 1] <= window_begin,
            shaped ==> {
                &&& window_begin == window_end
                &&& window_begin == min(sequence@.len() * bs, input_len as int)
                &&& sequence@.len() <= nblocks
                &&& forall|j: int|
                    0 <= j < sequence@.len() ==> (#[trigger] sequence@[j])@
                        == other_blocks@[j].hash_strong@
            },
        decreases input_len - window_begin,
    {
        let remaining = input_len - window_begin;
        let this_window_size = if remaining < block_size {
            remaining
        } else {
            block_size
        };
        while rolling_hash.count() < this_window_size
            invariant
                input_len == input@.len(),
                window_begin <= window_end <= input_len,
                window_begin + this_window_size <= input_len,
                window_end - window_begin <= this_window_size,
                rolling_hash.wf(),
                rolling_hash.window@ == input@.subrange(window_begin as int, window_end as int),
            decreases this_window_size - (window_end - window_begin),
        {
            let x = input[window_end];
            rolling_hash.add(x);
            proof {
                assert(input@.subrange(window_begin as int, window_end as int).push(
                    input@[window_end as int],
                ) =~= input@.subrange(window_begin as int, window_end + 1));
            }
            window_end = window_end + 1;
        }
        let ghost win = input@.subrange(window_begin as int, window_end as int);
        let ghost kk = sequence@.len() as int;
        proof {
            if shaped {
                // in the identical-content scan every window is a whole block
                lemma_num_blocks_bounds(input_len as int, bs);
                if kk * bs >= input_len {
                    assert(window_begin == input_len);
                    assert(false);
                }
                assert(window_begin == kk * bs);
                assert(kk < nblocks) by {
                    if kk >= nblocks {
                        vstd::arithmetic::mul::lemma_mul_inequality(nblocks as int, kk, bs);
                    }
                };
                assert(block_is_chunk(input@, bs, other_blocks@[kk], kk));
                assert(window_end == chunk_end(input_len as int, bs, kk));
                assert(win =~= chunk_of(input@, bs, kk));
            }
        }
        let hash_weak = rolling_hash.get();
        let weak_hit = weak_contains(&weak_list, hash_weak);
        proof {
            if shaped {
                assert(weak_list@[kk] == hash_weak);
                assert(weak_list@.contains(hash_weak));
                assert(weak_hit);
            }
        }
        let mut matched: Option<Hash128> = None;
        if weak_hit {
            let strong = compute_hash_strong(&input[window_begin..window_end]);
            let strong_hit = strong_contains(&strong_list, &strong);
            proof {
                if shaped {
                    assert(strong@ == blake3_128_of(win));
                    assert(strong_list@[kk]@ == other_blocks@[kk].hash_strong@);
                    assert(strong_list@[kk]@ == strong@);
                    assert(strong_hit);
                }
            }
            if strong_hit {
                matched = Some(strong);
            }
            proof {
                if shaped {
                    assert(matched is Some && matched->0@ == other_blocks@[kk].hash_strong@
                        && matched->0@ == blake3_128_of(win));
                }
            }
        }
        match matched {
            Some(hash_strong) => {
                proof {
                    assert(hash_strong@ == blake3_128_of(win));
                }
                let ghost m1 = assoc_view(entries@);
                assoc_insert(&mut entries, hash_strong, window_begin as u64);
                sequence.push(hash_strong);
                proof {
                    starts = starts.push(window_begin as int);
                    ends = ends.push(window_end as int);
                }
                proof {
                    let m2 = assoc_view(entries@);
                    let w = window_end - window_begin;
                    assert(blake3_128_of(
                        input@.subrange(window_begin as int, window_begin as int + w),
                    ) == hash_strong@);
                    assert(match_evidence(input@, bs, hash_strong@, window_begin as u64));
                    assert forall|h: Seq<u8>| #[trigger] m2.contains_key(h) implies match_evidence(
                        input@,
                        bs,
                        h,
                        m2[h],
                    ) by {
                        if h != hash_strong@ {
                            assert(m1.contains_key(h));
                        }
                    }
                    if shaped {
                        let kk = (sequence@.len() - 1) as int;
                        assert((kk + 1) * bs == kk * bs + bs) by (nonlinear_arith);
                    }
                }
                window_begin = window_end;
                rolling_hash = RollingHash::new();
                proof {
                    assert(input@.subrange(window_begin as int, window_end as int)
                        =~= Seq::<u8>::empty());
                }
            },
            None => {
                proof {
                    if shaped {
                        assert(false);
                    }
                }
                let x = input[window_begin];
                rolling_hash.sub(x);
                proof {
                    assert(input@.subrange(window_begin as int, window_end as int).drop_first()
                        =~= input@.subrange(window_begin + 1, window_end as int));
                }
                window_begin = window_begin + 1;
            },
        }
    }
    let synchronized = input_len == other_len && is_synchronized(
        sequence.as_slice(),
        other_blocks,
    );
    proof {
        if shaped {
            // the scan consumed every block in order, so the check must pass
            let kk = sequence@.len() as int;
            lemma_num_blocks_bounds(input_len as int, bs);
            assert(kk * bs >= input_len);
            assert(kk == nblocks) by {
                if kk < nblocks {
                    if input_len == 0 {
                        // an empty input fingerprints to no blocks at all
                        vstd::arithmetic::mul::lemma_mul_inequality(1, nblocks as int, bs);
                        assert(false);
                    } else {
                        vstd::arithmetic::mul::lemma_mul_inequality(kk, nblocks as int - 1, bs);
                        assert(false);
                    }
                }
            };
            lemma_blocks_sizes_sum_shaped(input@, bs, other_blocks@, nblocks as int);
            assert(other_blocks@.take(nblocks as int) =~= other_blocks@);
            assert(synchronized);
        }
    }
    proof {
        if synchronized {
            assert(windows_match_blocks(input@, bs, other_blocks@, starts, ends));
        }
    }
    let mut patch_commands = PatchCommands::new();
    if !synchronized {
        let ghost m = assoc_view(entries@);
        let mut k: usize = 0;
        while k < nblocks
            invariant
                nblocks == other_blocks@.len(),
                k <= nblocks,
                m == assoc_view(entries@),
                wf_match_map(m, input@, bs),
                bs == block_size as int,
                input_len == input@.len(),
                input@.len() + u32::MAX <= u64::MAX,
                forall|j: int|
                    0 <= j < other_blocks@.len() ==> (#[trigger] other_blocks@[j]).offset
                        + other_blocks@[j].size <= u64::MAX,
                patch_commands.base@ == emit_base(other_blocks@.take(k as int), m),
                patch_commands.other@ == emit_other(other_blocks@.take(k as int), m),
                cmds_bounded(patch_commands.base@),
                cmds_bounded(patch_commands.other@),
            decreases nblocks - k,
        {
            proof {
                assert(other_blocks@.take(k + 1).drop_last() =~= other_blocks@.take(k as int));
                assert(other_blocks@.take(k + 1).last() == other_blocks@[k as int]);
                assert(other_blocks@[k as int].offset + other_blocks@[k as int].size
                    <= u64::MAX);
            }
            let b = &other_blocks[k];
            match assoc_get(&entries, &b.hash_strong) {
                Some(base_offset) => {
                    proof {
                        // the recorded offset points strictly inside the input
                        assert(match_evidence(input@, bs, b.hash_strong@, m[b.hash_strong@]));
                        let w = choose|w: int|
                            1 <= w <= bs && m[b.hash_strong@] + w <= input@.len() && #[trigger]
                            blake3_128_of(
                                input@.subrange(
                                    m[b.hash_strong@] as int,
                                    m[b.hash_strong@] + w,
                                ),
                            ) == b.hash_strong@;
                        assert(base_offset < input@.len());
                    }
                    patch_commands.base.push(
                        CopyCmd { source: base_offset, target: b.offset, size: b.size },
                    );
                },
                None => {
                    patch_commands.other.push(
                        CopyCmd { source: b.offset, target: b.offset, size: b.size },
                    );
                },
            }
            k = k + 1;
        }
        proof {
            assert(other_blocks@.take(nblocks as int) =~= other_blocks@);
            assert(wf_match_map(m, input@, bs) && patch_commands.base@ == emit_base(
                other_blocks@,
                m,
            ) && patch_commands.other@ == emit_other(other_blocks@, m));
        }
    }
    patch_commands
}

/// Every command's source and target ranges stay within the 64-bit offset
/// space.
pub open spec fn cmds_bounded(s: Seq<CopyCmd>) -> bool {
    forall|i: int|
        0 <= i < s.len() ==> (#[trigger] s[i]).source + s[i].size <= u64::MAX && s[i].target
            + s[i].size <= u64::MAX
}

/// The list is ordered by target offset.
pub open spec fn cmds_sorted(s: Seq<CopyCmd>) -> bool {
    forall|i: int, j: int| 0 <= i < j < s.len() ==> (#[trigger] s[i]).target <= (#[trigger] s[j]).target
}

/// Stable insertion by target: the command lands after every command whose
/// target does not exceed its own.
pub open spec fn insert_sorted(c: CopyCmd, s: Seq<CopyCmd>) -> Seq<CopyCmd>
    decreases s.len(),
{
    if s.len() == 0 {
        seq![c]
    } else if s.last().target <= c.target {
        s.push(c)
    } else {
        insert_sorted(c, s.drop_last()).push(s.last())
    }
}

/// Stable sort by target offset: each command inserted in turn.
pub open spec fn sort_by_target(s: Seq<CopyCmd>) -> Seq<CopyCmd>
    decreases s.len(),
{
    if s.len() == 0 {
        Seq::empty()
    } else {
        insert_sorted(s.last(), sort_by_target(s.drop_last()))
    }
}

/// Two commands whose source runs and target runs are both contiguous, and
/// whose combined size still fits in 32 bits, can become one command.
pub open spec fn cmds_mergeable(a: CopyCmd, b: CopyCmd) -> bool {
    &&& a.source + a.size == b.source
    &&& a.target + a.size == b.target
    &&& a.size + b.size <= u32::MAX
}

pub open spec fn cmds_merged(a: CopyCmd, b: CopyCmd) -> CopyCmd {
    CopyCmd { source: a.source, target: a.target, size: (a.size + b.size) as u32 }
}

/// One step of the coalescing walk: the next command either merges into the
/// accumulated last command or is appended.
pub open spec fn merge_step(acc: Seq<CopyCmd>, c: CopyCmd) -> Seq<CopyCmd> {
    if acc.len() > 0 && cmds_mergeable(acc.last(), c) {
        acc.drop_last().push(cmds_merged(acc.last(), c))
    } else {
        acc.push(c)
    }
}

/// The full coalescing walk over a (sorted) command list.
pub open spec fn merge_pass(s: Seq<CopyCmd>) -> Seq<CopyCmd>
    decreases s.len(),
{
    if s.len() == 0 {
        Seq::empty()
    } else {
        merge_step(merge_pass(s.drop_last()), s.last())
    }
}

pub open spec fn drop_zeros(s: Seq<CopyCmd>) -> Seq<CopyCmd> {
    s.filter(|c: CopyCmd| c.size != 0)
}

/// What the optimization pass makes of a command list: sorted by target,
/// contiguous runs merged, empty commands discarded. A list too short to
/// merge anything still sheds its empty commands.
pub open spec fn coalesce(s: Seq<CopyCmd>) -> Seq<CopyCmd> {
    if s.len() <= 1 {
        drop_zeros(s)
    } else {
        drop_zeros(merge_pass(sort_by_target(s)))
    }
}

pub proof fn lemma_insert_sorted_len(c: CopyCmd, s: Seq<CopyCmd>)
    ensures
        insert_sorted(c, s).len() == s.len() + 1,
    decreases s.len(),
{
    if s.len() > 0 && !(s.last().target <= c.target) {
        lemma_insert_sorted_len(c, s.drop_last());
    }
}

pub proof fn lemma_insert_sorted_bounded(c: CopyCmd, s: Seq<CopyCmd>)
    requires
        cmds_bounded(s),
        c.source + c.size <= u64::MAX,
        c.target + c.size <= u64::MAX,
    ensures
        cmds_bounded(insert_sorted(c, s)),
    decreases s.len(),
{
    if s.len() == 0 {
    } else if s.last().target <= c.target {
    } else {
        lemma_insert_sorted_bounded(c, s.drop_last());
    }
}

fn insert_cmd_sorted(out: &mut Vec<CopyCmd>, c: CopyCmd)
    ensures
        final(out)@ == insert_sorted(c, old(out)@),
{
    let mut j = out.len();
    proof {
        assert(out@.take(j as int) =~= out@);
        assert(out@.skip(j as int) =~= Seq::<CopyCmd>::empty());
        assert(insert_sorted(c, out@) + Seq::<CopyCmd>::empty() =~= insert_sorted(c, out@));
    }
    while j > 0 && out[j - 1].target > c.target
        invariant
            j <= out@.len(),
            insert_sorted(c, out@) == insert_sorted(c, out@.take(j as int)) + out@.skip(j as int),
        decreases j,
    {
        proof {
            assert(out@.take(j as int).drop_last() =~= out@.take(j - 1));
            assert(out@.take(j as int).last() == out@[j - 1]);
            assert(insert_sorted(c, out@.take(j - 1)).push(out@[j - 1]) + out@.skip(j as int)
                =~= insert_sorted(c, out@.take(j - 1)) + out@.skip(j - 1));
        }
        j = j - 1;
    }
    proof {
        if j > 0 {
            assert(out@.take(j as int).last() == out@[j - 1]);
        }
        assert(insert_sorted(c, out@.take(j as int)) =~= out@.take(j as int).push(c));
        assert(out@.insert(j as int, c) =~= out@.take(j as int).push(c) + out@.skip(j as int));
    }
    out.insert(j, c);
}

/// Sort the commands by target, merge every contiguous run, and discard the
/// commands the merging emptied. Lists of at most one command stay as given.
fn optimize_copy_cmds(cmds: &mut Vec<CopyCmd>)
    requires
        cmds_bounded(old(cmds)@),
    ensures
        final(cmds)@ == coalesce(old(cmds)@),
{
    let n = cmds.len();
    if n <= 1 {
        // even a lone empty command is discarded
        let mut kept: Vec<CopyCmd> = Vec::new();
        if n == 1 {
            let c = cmds[0];
            if c.size != 0 {
                kept.push(c);
            }
        }
        proof {
            broadcast use Seq::lemma_filter_push;

            if cmds@.len() == 0 {
                assert(drop_zeros(cmds@) == cmds@);
                assert(kept@ =~= cmds@);
            } else {
                assert(cmds@ =~= Seq::<CopyCmd>::empty().push(cmds@[0]));
                assert(drop_zeros(Seq::<CopyCmd>::empty().push(cmds@[0])) == (
                if cmds@[0].size != 0 {
                    drop_zeros(Seq::<CopyCmd>::empty()).push(cmds@[0])
                } else {
                    drop_zeros(Seq::<CopyCmd>::empty())
                }));
                assert(drop_zeros(Seq::<CopyCmd>::empty()) =~= Seq::<CopyCmd>::empty());
                assert(kept@ =~= drop_zeros(cmds@));
            }
        }
        *cmds = kept;
        return;
    }
    let mut sorted: Vec<CopyCmd> = Vec::new();
    let mut i: usize = 0;
    proof {
        assert(cmds@.take(0) =~= Seq::<CopyCmd>::empty());
    }
    while i < n
        invariant
            n == cmds@.len(),
            i <= n,
            cmds_bounded(cmds@),
            sorted@ == sort_by_target(cmds@.take(i as int)),
            sorted@.len() == i,
            cmds_bounded(sorted@),
        decreases n - i,
    {
        proof {
            assert(cmds@.take(i + 1).drop_last() =~= cmds@.take(i as int));
            assert(cmds@.take(i + 1).last() == cmds@[i as int]);
            lemma_insert_sorted_bounded(cmds@[i as int], sorted@);
            lemma_insert_sorted_len(cmds@[i as int], sorted@);
        }
        let c = cmds[i];
        insert_cmd_sorted(&mut sorted, c);
        i = i + 1;
    }
    proof {
        assert(cmds@.take(n as int) =~= cmds@);
    }
    let mut acc: Vec<CopyCmd> = Vec::new();
    let mut i: usize = 0;
    proof {
        assert(sorted@.take(0) =~= Seq::<CopyCmd>::empty());
    }
    while i < n
        invariant
            n == sorted@.len(),
            i <= n,
            cmds_bounded(sorted@),
            acc@ == merge_pass(sorted@.take(i as int)),
            cmds_bounded(acc@),
        decreases n - i,
    {
        proof {
            assert(sorted@.take(i + 1).drop_last() =~= sorted@.take(i as int));
            assert(sorted@.take(i + 1).last() == sorted@[i as int]);
        }
        let c = sorted[i];
        let mut did_merge = false;
        if acc.len() > 0 {
            let last = acc[acc.len() - 1];
            if last.source + last.size as u64 == c.source && last.target + last.size as u64
                == c.target && last.size as u64 + c.size as u64 <= u32::MAX as u64 {
                let m = CopyCmd {
                    source: last.source,
                    target: last.target,
                    size: last.size + c.size,
                };
                acc.pop();
                acc.push(m);
                did_merge = true;
                proof {
                    assert(acc@ =~= merge_pass(sorted@.take(i as int)).drop_last().push(
                        cmds_merged(last, c),
                    ));
                }
            }
        }
        if !did_merge {
            acc.push(c);
        }
        i = i + 1;
    }
    proof {
        assert(sorted@.take(n as int) =~= sorted@);
    }
    let mut kept: Vec<CopyCmd> = Vec::new();
    let mut i: usize = 0;
    proof {
        assert(acc@.take(0) =~= Seq::<CopyCmd>::empty());
        assert(acc@.take(0).filter(|c: CopyCmd| c.size != 0) =~= Seq::<CopyCmd>::empty());
    }
    while i < acc.len()
        invariant
            i <= acc@.len(),
            cmds_bounded(acc@),
            kept@ == drop_zeros(acc@.take(i as int)),
        decreases acc@.len() - i,
    {
        proof {
            broadcast use Seq::lemma_filter_push;

            assert(acc@.take(i + 1) =~= acc@.take(i as int).push(acc@[i as int]));
            assert(drop_zeros(acc@.take(i as int).push(acc@[i as int])) == (
            if acc@[i as int].size != 0 {
                drop_zeros(acc@.take(i as int)).push(acc@[i as int])
            } else {
                drop_zeros(acc@.take(i as int))
            }));
        }
        let c = acc[i];
        if c.size != 0 {
            kept.push(c);
        }
        i = i + 1;
    }
    proof {
        assert(acc@.take(acc@.len() as int) =~= acc@);
    }
    *cmds = kept;
}

/// The optimization pass alone, for exercising it on hand-built lists.
pub fn testing_optimize_copy_cmds(cmds: &mut Vec<CopyCmd>)
    requires
        cmds_bounded(old(cmds)@),
    ensures
        final(cmds)@ == coalesce(old(cmds)@),
{
    optimize_copy_cmds(cmds);
}

/// The serialized delta: residual bytes, copies out of base, copies out of the
/// residual data, and the length to reconstruct.
pub struct Patch {
    pub data: Vec<u8>,
    pub base: Vec<CopyCmd>,
    pub other: Vec<CopyCmd>,
    pub other_size: u64,
}

/// The errors the engine can surface.
#[derive(Clone, Copy, Debug, PartialEq, Eq, Structural)]
pub enum PatchError {
    /// An input or block size beyond what offsets and sizes can index.
    InputTooLarge,
    /// A patch whose commands reach outside their buffers.
    MalformedPatch,
}

/// Every command of the source list reads inside the source buffer.
pub open spec fn cmds_src_all_in(s: Seq<CopyCmd>, src_len: int) -> bool {
    forall|i: int| 0 <= i < s.len() ==> cmd_src_in(#[trigger] s[i], src_len)
}

/// Every command of the list writes inside the destination buffer.
pub open spec fn cmds_dst_all_in(s: Seq<CopyCmd>, dst_len: int) -> bool {
    forall|i: int| 0 <= i < s.len() ==> cmd_dst_in(#[trigger] s[i], dst_len)
}

/// The concatenated residual bytes the patch carries, in command order.
pub open spec fn residual_data(other: Seq<u8>, cmds: Seq<CopyCmd>) -> Seq<u8>
    decreases cmds.len(),
{
    if cmds.len() == 0 {
        Seq::empty()
    } else {
        residual_data(other, cmds.drop_last()) + other.subrange(
            cmds.last().source as int,
            cmds.last().source + cmds.last().size,
        )
    }
}

/// The residual commands with their sources rewritten to offsets into the
/// residual data: each source is the total size of the commands before it.
pub open spec fn rewrite_sources(cmds: Seq<CopyCmd>) -> Seq<CopyCmd> {
    Seq::new(
        cmds.len(),
        |i: int|
            CopyCmd {
                source: sizes_sum(cmds.take(i)) as u64,
                target: cmds[i].target,
                size: cmds[i].size,
            },
    )
}

pub proof fn lemma_residual_data_len(other: Seq<u8>, cmds: Seq<CopyCmd>)
    requires
        cmds_src_all_in(cmds, other.len() as int),
    ensures
        residual_data(other, cmds).len() == sizes_sum(cmds),
    decreases cmds.len(),
{
    if cmds.len() > 0 {
        lemma_residual_data_len(other, cmds.drop_last());
    }
}

pub proof fn lemma_sizes_sum_nonneg(cmds: Seq<CopyCmd>)
    ensures
        sizes_sum(cmds) >= 0,
    decreases cmds.len(),
{
    if cmds.len() > 0 {
        lemma_sizes_sum_nonneg(cmds.drop_last());
    }
}

/// Package residual bytes and instruction lists into a patch: concatenate the
/// residual slices of `other_data` in command order, rewrite the residual
/// sources to offsets into that buffer, carry the base commands through, and
/// coalesce both lists.
pub fn build_patch(other_data: &[u8], patch_commands: &PatchCommands) -> (r: Patch)
    requires
        cmds_src_all_in(patch_commands.other@, other_data@.len() as int),
        sizes_sum(patch_commands.other@) <= usize::MAX,
        cmds_bounded(patch_commands.base@),
        cmds_bounded(patch_commands.other@),
    ensures
        r.data@ == residual_data(other_data@, patch_commands.other@),
        r.base@ == coalesce(patch_commands.base@),
        r.other@ == coalesce(rewrite_sources(patch_commands.other@)),
        r.other_size == other_data@.len(),
{
    let other_view = Ghost(patch_commands.other@);
    let other_len = other_data.len();
    let n = patch_commands.other.len();
    let mut patch_data: Vec<u8> = Vec::new();
    let mut other_cmds: Vec<CopyCmd> = Vec::new();
    let mut i: usize = 0;
    proof {
        assert(other_view@.take(0) =~= Seq::<CopyCmd>::empty());
        assert(rewrite_sources(other_view@).take(0) =~= Seq::<CopyCmd>::empty());
    }
    while i < n
        invariant
            n == patch_commands.other@.len(),
            other_view@ == patch_commands.other@,
            other_len == other_data@.len(),
            i <= n,
            cmds_src_all_in(other_view@, other_data@.len() as int),
            sizes_sum(other_view@) <= usize::MAX,
            cmds_bounded(other_view@),
            patch_data@ == residual_data(other_data@, other_view@.take(i as int)),
            patch_data@.len() == sizes_sum(other_view@.take(i as int)),
            other_cmds@ == rewrite_sources(other_view@).take(i as int),
        decreases n - i,
    {
        proof {
            assert(other_view@.take(i + 1).drop_last() =~= other_view@.take(i as int));
            assert(other_view@.take(i + 1).last() == other_view@[i as int]);
            lemma_sizes_sum_take_succ(other_view@, i as int);
            lemma_sizes_sum_take_le(other_view@, i + 1);
            lemma_sizes_sum_nonneg(other_view@.take(i as int));
        }
        proof {
            assert(cmd_src_in(other_view@[i as int], other_data@.len() as int));
        }
        let cmd = patch_commands.other[i];
        let patch_copy_cmd = CopyCmd {
            source: patch_data.len() as u64,
            target: cmd.target,
            size: cmd.size,
        };
        let slice_begin = cmd.source as usize;
        let slice_end = cmd.source as usize + cmd.size as usize;
        patch_data.extend_from_slice(&other_data[slice_begin..slice_end]);
        other_cmds.push(patch_copy_cmd);
        proof {
            assert(other_cmds@ =~= rewrite_sources(other_view@).take(i + 1));
        }
        i = i + 1;
    }
    proof {
        assert(other_view@.take(n as int) =~= other_view@);
        assert(rewrite_sources(other_view@).take(n as int) =~= rewrite_sources(other_view@));
    }
    let mut base_cmds: Vec<CopyCmd> = Vec::new();
    let nb = patch_commands.base.len();
    let mut i: usize = 0;
    while i < nb
        invariant
            nb == patch_commands.base@.len(),
            i <= nb,
            base_cmds@ == patch_commands.base@.take(i as int),
        decreases nb - i,
    {
        base_cmds.push(patch_commands.base[i]);
        proof {
            assert(base_cmds@ =~= patch_commands.base@.take(i + 1));
        }
        i = i + 1;
    }
    proof {
        assert(patch_commands.base@.take(nb as int) =~= patch_commands.base@);
    }
    let mut result = Patch {
        data: patch_data,
        base: base_cmds,
        other: other_cmds,
        other_size: other_data.len() as u64,
    };
    proof {
        assert forall|j: int| 0 <= j < rewrite_sources(other_view@).len() implies (
        #[trigger] rewrite_sources(other_view@)[j]).source + rewrite_sources(other_view@)[j].size
            <= u64::MAX && rewrite_sources(other_view@)[j].target + rewrite_sources(
            other_view@,
        )[j].size <= u64::MAX by {
            lemma_sizes_sum_take_succ(other_view@, j);
            lemma_sizes_sum_take_le(other_view@, j + 1);
            lemma_sizes_sum_nonneg(other_view@.take(j));
        }
    }
    optimize_copy_cmds(&mut result.base);
    optimize_copy_cmds(&mut result.other);
    result
}

/// A zero-filled buffer of the given length.
pub open spec fn zero_seq(n: int) -> Seq<u8> {
    Seq::new(n as nat, |i: int| 0u8)
}

/// All commands of the patch stay inside their buffers: base copies inside the
/// base sequence, residual copies inside the carried data, and every target
/// range inside the reconstruction.
pub open spec fn patch_wf(p: Patch, base_len: int) -> bool {
    &&& cmds_src_all_in(p.base@, base_len)
    &&& cmds_dst_all_in(p.base@, p.other_size as int)
    &&& cmds_src_all_in(p.other@, p.data@.len() as int)
    &&& cmds_dst_all_in(p.other@, p.other_size as int)
}

fn cmds_valid(cmds: &Vec<CopyCmd>, src_len: u64, dst_len: u64) -> (r: bool)
    ensures
        r == (cmds_src_all_in(cmds@, src_len as int) && cmds_dst_all_in(cmds@, dst_len as int)),
{
    let n = cmds.len();
    let mut i: usize = 0;
    while i < n
        invariant
            n == cmds@.len(),
            i <= n,
            forall|j: int|
                0 <= j < i ==> cmd_src_in(#[trigger] cmds@[j], src_len as int) && cmd_dst_in(
                    cmds@[j],
                    dst_len as int,
                ),
        decreases n - i,
    {
        let c = cmds[i];
        let sz = c.size as u64;
        if sz > src_len || c.source > src_len - sz {
            return false;
        }
        if sz > dst_len || c.target > dst_len - sz {
            return false;
        }
        i = i + 1;
    }
    true
}

pub proof fn lemma_apply_cmds_len(dst: Seq<u8>, src: Seq<u8>, cmds: Seq<CopyCmd>)
    ensures
        apply_cmds(dst, src, cmds).len() == dst.len(),
    decreases cmds.len(),
{
    if cmds.len() > 0 {
        lemma_apply_cmds_len(dst, src, cmds.drop_last());
    }
}

/// Reconstruct the other sequence: start from a zero-filled buffer of
/// `other_size` bytes, execute the base commands against the base sequence,
/// then the residual commands against the carried data. A patch whose commands
/// reach outside their buffers is rejected whole.
pub fn apply_patch(base_data: &[u8], patch: &Patch) -> (r: Result<Vec<u8>, PatchError>)
    requires
        patch.other_size <= usize::MAX,
    ensures
        match r {
            Ok(out) => {
                &&& patch_wf(*patch, base_data@.len() as int)
                &&& out@ == apply_cmds(
                    apply_cmds(zero_seq(patch.other_size as int), base_data@, patch.base@),
                    patch.data@,
                    patch.other@,
                )
                &&& out@.len() == patch.other_size
            },
            Err(e) => {
                &&& e == PatchError::MalformedPatch
                &&& !patch_wf(*patch, base_data@.len() as int)
            },
        },
{
    let base_len = base_data.len() as u64;
    if !cmds_valid(&patch.base, base_len, patch.other_size) {
        return Err(PatchError::MalformedPatch);
    }
    if !cmds_valid(&patch.other, patch.data.len() as u64, patch.other_size) {
        return Err(PatchError::MalformedPatch);
    }
    let n = patch.other_size as usize;
    let mut result: Vec<u8> = vec![0u8; n];
    proof {
        assert(result@ =~= zero_seq(patch.other_size as int));
        assert(patch.base@.take(0) =~= Seq::<CopyCmd>::empty());
    }
    let ghost after_base = apply_cmds(zero_seq(patch.other_size as int), base_data@, patch.base@);
    let nb = patch.base.len();
    let mut i: usize = 0;
    while i < nb
        invariant
            nb == patch.base@.len(),
            i <= nb,
            cmds_src_all_in(patch.base@, base_data@.len() as int),
            cmds_dst_all_in(patch.base@, patch.other_size as int),
            result@ == apply_cmds(
                zero_seq(patch.other_size as int),
                base_data@,
                patch.base@.take(i as int),
            ),
            result@.len() == patch.other_size,
        decreases nb - i,
    {
        proof {
            assert(patch.base@.take(i + 1).drop_last() =~= patch.base@.take(i as int));
            assert(patch.base@.take(i + 1).last() == patch.base@[i as int]);
        }
        let cmd = patch.base[i];
        cmd.execute(&mut result, base_data);
        i = i + 1;
    }
    proof {
        assert(patch.base@.take(nb as int) =~= patch.base@);
        assert(patch.other@.take(0) =~= Seq::<CopyCmd>::empty());
    }
    let no = patch.other.len();
    let mut i: usize = 0;
    while i < no
        invariant
            no == patch.other@.len(),
            i <= no,
            cmds_src_all_in(patch.other@, patch.data@.len() as int),
            cmds_dst_all_in(patch.other@, patch.other_size as int),
            after_base == apply_cmds(
                zero_seq(patch.other_size as int),
                base_data@,
                patch.base@,
            ),
            result@ == apply_cmds(after_base, patch.data@, patch.other@.take(i as int)),
            result@.len() == patch.other_size,
        decreases no - i,
    {
        proof {
            assert(patch.other@.take(i + 1).drop_last() =~= patch.other@.take(i as int));
            assert(patch.other@.take(i + 1).last() == patch.other@[i as int]);
        }
        let cmd = patch.other[i];
        cmd.execute(&mut result, patch.data.as_slice());
        i = i + 1;
    }
    proof {
        assert(patch.other@.take(no as int) =~= patch.other@);
    }
    Ok(result)
}




/// The command writes byte position `p` of the reconstruction.
pub open spec fn covers(c: CopyCmd, p: int) -> bool {
    c.target <= p < c.target + c.size
}

/// How many commands of the list write position `p`.
pub open spec fn cover_count(s: Seq<CopyCmd>, p: int) -> int
    decreases s.len(),
{
    if s.len() == 0 {
        0
    } else {
        cover_count(s.drop_last(), p) + if covers(s.last(), p) {
            1int
        } else {
            0int
        }
    }
}

/// The block's target range holds byte position `p`.
pub open spec fn block_covers(b: Block, p: int) -> bool {
    b.offset <= p < b.offset + b.size
}

/// How many blocks of the list hold position `p` in their target range.
pub open spec fn blocks_cover_count(blocks: Seq<Block>, p: int) -> int
    decreases blocks.len(),
{
    if blocks.len() == 0 {
        0
    } else {
        blocks_cover_count(blocks.drop_last(), p) + if block_covers(blocks.last(), p) {
            1int
        } else {
            0int
        }
    }
}

pub proof fn lemma_cover_count_nonneg(s: Seq<CopyCmd>, p: int)
    ensures
        cover_count(s, p) >= 0,
    decreases s.len(),
{
    if s.len() > 0 {
        lemma_cover_count_nonneg(s.drop_last(), p);
    }
}

pub proof fn lemma_insert_sorted_cover(c: CopyCmd, s: Seq<CopyCmd>, p: int)
    ensures
        cover_count(insert_sorted(c, s), p) == cover_count(s, p) + if covers(c, p) {
            1int
        } else {
            0int
        },
    decreases s.len(),
{
    if s.len() == 0 {
        assert(insert_sorted(c, s) =~= seq![c]);
        assert(seq![c].drop_last() =~= Seq::<CopyCmd>::empty());
        assert(seq![c].last() == c);
        assert(cover_count(Seq::<CopyCmd>::empty(), p) == 0);
        assert(cover_count(seq![c], p) == (if covers(c, p) { 1int } else { 0int }));
    } else if s.last().target <= c.target {
        assert(insert_sorted(c, s) == s.push(c));
        assert(s.push(c).drop_last() =~= s);
        assert(cover_count(s.push(c), p) == cover_count(s, p) + (if covers(c, p) {
            1int
        } else {
            0int
        }));
    } else {
        lemma_insert_sorted_cover(c, s.drop_last(), p);
        let pre = insert_sorted(c, s.drop_last());
        assert(insert_sorted(c, s) == pre.push(s.last()));
        assert(pre.push(s.last()).drop_last() =~= pre);
        assert(cover_count(pre.push(s.last()), p) == cover_count(pre, p) + (if covers(
            s.last(),
            p,
        ) { 1int } else { 0int }));
        assert(cover_count(s, p) == cover_count(s.drop_last(), p) + (if covers(s.last(), p) {
            1int
        } else {
            0int
        }));
    }
}

pub proof fn lemma_sort_cover(s: Seq<CopyCmd>, p: int)
    ensures
        cover_count(sort_by_target(s), p) == cover_count(s, p),
    decreases s.len(),
{
    if s.len() > 0 {
        lemma_sort_cover(s.drop_last(), p);
        lemma_insert_sorted_cover(s.last(), sort_by_target(s.drop_last()), p);
    }
}

pub proof fn lemma_merge_pass_cover(s: Seq<CopyCmd>, p: int)
    ensures
        cover_count(merge_pass(s), p) == cover_count(s, p),
    decreases s.len(),
{
    if s.len() > 0 {
        lemma_merge_pass_cover(s.drop_last(), p);
        let acc = merge_pass(s.drop_last());
        let c = s.last();
        assert(merge_pass(s) == merge_step(acc, c));
        if acc.len() > 0 && cmds_mergeable(acc.last(), c) {
            let m = cmds_merged(acc.last(), c);
            assert(merge_pass(s) == acc.drop_last().push(m));
            assert(covers(m, p) == (covers(acc.last(), p) || covers(c, p)));
            assert(!(covers(acc.last(), p) && covers(c, p)));
            assert(acc.drop_last().push(m).drop_last() =~= acc.drop_last());
            assert(cover_count(acc.drop_last().push(m), p) == cover_count(acc.drop_last(), p)
                + (if covers(m, p) { 1int } else { 0int }));
            assert(cover_count(acc, p) == cover_count(acc.drop_last(), p) + (if covers(
                acc.last(),
                p,
            ) { 1int } else { 0int }));
            assert(cover_count(merge_pass(s), p) == cover_count(s, p));
        } else {
            assert(merge_pass(s) == acc.push(c));
            assert(acc.push(c).drop_last() =~= acc);
            assert(cover_count(merge_pass(s), p) == cover_count(s, p));
        }
    } else {
        assert(merge_pass(s) == Seq::<CopyCmd>::empty());
        assert(cover_count(merge_pass(s), p) == cover_count(s, p));
    }
}

pub proof fn lemma_drop_zeros_cover(s: Seq<CopyCmd>, p: int)
    ensures
        cover_count(drop_zeros(s), p) == cover_count(s, p),
    decreases s.len(),
{
    if s.len() > 0 {
        broadcast use Seq::lemma_filter_push;

        lemma_drop_zeros_cover(s.drop_last(), p);
        assert(s =~= s.drop_last().push(s.last()));
        assert(drop_zeros(s.drop_last().push(s.last())) == (if s.last().size != 0 {
            drop_zeros(s.drop_last()).push(s.last())
        } else {
            drop_zeros(s.drop_last())
        }));
        if s.last().size != 0 {
            let pre = drop_zeros(s.drop_last());
            assert(pre.push(s.last()).drop_last() =~= pre);
            assert(cover_count(pre.push(s.last()), p) == cover_count(pre, p) + (if covers(
                s.last(),
                p,
            ) { 1int } else { 0int }));
        } else {
            assert(!covers(s.last(), p));
        }
        assert(cover_count(s, p) == cover_count(s.drop_last(), p) + (if covers(s.last(), p) {
            1int
        } else {
            0int
        }));
    }
}

/// Coalescing leaves the set of written positions, with multiplicity, exactly
/// as it was.
pub proof fn lemma_coalesce_cover(s: Seq<CopyCmd>, p: int)
    ensures
        cover_count(coalesce(s), p) == cover_count(s, p),
{
    if s.len() <= 1 {
        lemma_drop_zeros_cover(s, p);
    } else {
        lemma_sort_cover(s, p);
        lemma_merge_pass_cover(sort_by_target(s), p);
        lemma_drop_zeros_cover(merge_pass(sort_by_target(s)), p);
    }
}

/// Rewriting residual sources moves no target range.
pub proof fn lemma_rewrite_cover(cmds: Seq<CopyCmd>, p: int)
    ensures
        cover_count(rewrite_sources(cmds), p) == cover_count(cmds, p),
    decreases cmds.len(),
{
    if cmds.len() > 0 {
        lemma_rewrite_cover(cmds.drop_last(), p);
        assert forall|i: int| 0 <= i < cmds.len() - 1 implies #[trigger] rewrite_sources(
            cmds,
        )[i] == rewrite_sources(cmds.drop_last())[i] by {
            assert(cmds.take(i) =~= cmds.drop_last().take(i));
        }
        assert(rewrite_sources(cmds).drop_last() =~= rewrite_sources(cmds.drop_last()));
        assert(covers(rewrite_sources(cmds).last(), p) == covers(cmds.last(), p));
        assert(cover_count(rewrite_sources(cmds), p) == cover_count(
            rewrite_sources(cmds).drop_last(),
            p,
        ) + (if covers(rewrite_sources(cmds).last(), p) { 1int } else { 0int }));
        assert(cover_count(cmds, p) == cover_count(cmds.drop_last(), p) + (if covers(
            cmds.last(),
            p,
        ) { 1int } else { 0int }));
    }
}

/// Each block yields exactly one command, in one of the two lists, writing
/// exactly the block's target range.
pub proof fn lemma_emit_cover(blocks: Seq<Block>, m: Map<Seq<u8>, u64>, p: int)
    ensures
        cover_count(emit_base(blocks, m), p) + cover_count(emit_other(blocks, m), p)
            == blocks_cover_count(blocks, p),
    decreases blocks.len(),
{
    if blocks.len() > 0 {
        lemma_emit_cover(blocks.drop_last(), m, p);
        let b = blocks.last();
        if m.contains_key(b.hash_strong@) {
            assert(emit_base(blocks.drop_last(), m).push(
                CopyCmd { source: m[b.hash_strong@], target: b.offset, size: b.size },
            ).drop_last() =~= emit_base(blocks.drop_last(), m));
        } else {
            assert(emit_other(blocks.drop_last(), m).push(
                CopyCmd { source: b.offset, target: b.offset, size: b.size },
            ).drop_last() =~= emit_other(blocks.drop_last(), m));
        }
    }
}

pub proof fn lemma_blocks_cover_take(data: Seq<u8>, bs: int, blocks: Seq<Block>, k: int, p: int)
    requires
        1 <= bs,
        blocks_of(data, bs, blocks),
        0 <= k <= blocks.len(),
    ensures
        blocks_cover_count(blocks.take(k), p) == if 0 <= p < min(k * bs, data.len() as int) {
            1int
        } else {
            0int
        },
    decreases k,
{
    if k == 0 {
        assert(blocks.take(0) =~= Seq::<Block>::empty());
        assert(0int * bs == 0) by (nonlinear_arith);
    } else {
        lemma_blocks_cover_take(data, bs, blocks, k - 1, p);
        assert(blocks.take(k).drop_last() =~= blocks.take(k - 1));
        assert(blocks.take(k).last() == blocks[k - 1]);
        assert(block_is_chunk(data, bs, blocks[k - 1], k - 1));
        assert((k - 1) * bs + bs == k * bs) by (nonlinear_arith);
        lemma_num_blocks_bounds(data.len() as int, bs);
        vstd::arithmetic::mul::lemma_mul_inequality(k - 1, num_blocks(data.len() as int, bs) - 1, bs);
    }
}

/// Law: the target ranges of the two coalesced command lists of a patch
/// partition the reconstruction range exactly: every position inside it is
/// written by exactly one command, and none outside it by any.
pub proof fn lemma_tiling(
    other: Seq<u8>,
    bs: int,
    blocks: Seq<Block>,
    m: Map<Seq<u8>, u64>,
    p: int,
)
    requires
        1 <= bs,
        blocks_of(other, bs, blocks),
    ensures
        0 <= p < other.len() ==> cover_count(coalesce(emit_base(blocks, m)), p) + cover_count(
            coalesce(rewrite_sources(emit_other(blocks, m))),
            p,
        ) == 1,
        !(0 <= p < other.len()) ==> cover_count(coalesce(emit_base(blocks, m)), p) + cover_count(
            coalesce(rewrite_sources(emit_other(blocks, m))),
            p,
        ) == 0,
{
    lemma_coalesce_cover(emit_base(blocks, m), p);
    lemma_coalesce_cover(rewrite_sources(emit_other(blocks, m)), p);
    lemma_rewrite_cover(emit_other(blocks, m), p);
    lemma_emit_cover(blocks, m, p);
    lemma_blocks_cover_take(other, bs, blocks, blocks.len() as int, p);
    assert(blocks.take(blocks.len() as int) =~= blocks);
    lemma_num_blocks_bounds(other.len() as int, bs);
}

/// Every residual command reads exactly one block's range of the other
/// sequence.
pub proof fn lemma_emit_other_elems(blocks: Seq<Block>, m: Map<Seq<u8>, u64>)
    ensures
        forall|i: int|
            0 <= i < emit_other(blocks, m).len() ==> exists|k: int|
                0 <= k < blocks.len() && (#[trigger] emit_other(blocks, m)[i]) == (CopyCmd {
                    source: blocks[k].offset,
                    target: blocks[k].offset,
                    size: blocks[k].size,
                }),
    decreases blocks.len(),
{
    if blocks.len() > 0 {
        lemma_emit_other_elems(blocks.drop_last(), m);
        let pre = emit_other(blocks.drop_last(), m);
        let b = blocks.last();
        assert forall|i: int| 0 <= i < emit_other(blocks, m).len() implies exists|k: int|
            0 <= k < blocks.len() && (#[trigger] emit_other(blocks, m)[i]) == (CopyCmd {
                source: blocks[k].offset,
                target: blocks[k].offset,
                size: blocks[k].size,
            }) by {
            if i < pre.len() {
                assert(emit_other(blocks, m)[i] == pre[i]);
                let k0 = choose|k: int|
                    0 <= k < blocks.drop_last().len() && pre[i] == (CopyCmd {
                        source: blocks.drop_last()[k].offset,
                        target: blocks.drop_last()[k].offset,
                        size: blocks.drop_last()[k].size,
                    });
                assert(blocks.drop_last()[k0] == blocks[k0]);
                assert(0 <= k0 < blocks.len() && emit_other(blocks, m)[i] == (CopyCmd {
                    source: blocks[k0].offset,
                    target: blocks[k0].offset,
                    size: blocks[k0].size,
                }));
            } else {
                assert(!m.contains_key(b.hash_strong@));
                assert(emit_other(blocks, m)[i] == (CopyCmd {
                    source: b.offset,
                    target: b.offset,
                    size: b.size,
                }));
                assert(blocks[blocks.len() - 1] == b);
            }
        }
    }
}

pub proof fn lemma_emit_other_src_in(other: Seq<u8>, bs: int, blocks: Seq<Block>, m: Map<
    Seq<u8>,
    u64,
>)
    requires
        1 <= bs,
        blocks_of(other, bs, blocks),
    ensures
        cmds_src_all_in(emit_other(blocks, m), other.len() as int),
{
    lemma_emit_other_elems(blocks, m);
    assert forall|i: int| 0 <= i < emit_other(blocks, m).len() implies cmd_src_in(
        #[trigger] emit_other(blocks, m)[i],
        other.len() as int,
    ) by {
        let k = choose|k: int|
            0 <= k < blocks.len() && emit_other(blocks, m)[i] == (CopyCmd {
                source: blocks[k].offset,
                target: blocks[k].offset,
                size: blocks[k].size,
            });
        assert(block_is_chunk(other, bs, blocks[k], k));
    }
}

pub proof fn lemma_sizes_sum_emit_other_le(blocks: Seq<Block>, m: Map<Seq<u8>, u64>)
    ensures
        0 <= sizes_sum(emit_other(blocks, m)),
        sizes_sum(emit_other(blocks, m)) <= blocks_sizes_sum(blocks),
    decreases blocks.len(),
{
    if blocks.len() == 0 {
    } else {
        lemma_sizes_sum_emit_other_le(blocks.drop_last(), m);
        let b = blocks.last();
        if !m.contains_key(b.hash_strong@) {
            assert(emit_other(blocks.drop_last(), m).push(
                CopyCmd { source: b.offset, target: b.offset, size: b.size },
            ).drop_last() =~= emit_other(blocks.drop_last(), m));
        }
    }
}

pub proof fn lemma_sizes_sum_insert_sorted(c: CopyCmd, s: Seq<CopyCmd>)
    ensures
        sizes_sum(insert_sorted(c, s)) == sizes_sum(s) + c.size,
    decreases s.len(),
{
    if s.len() == 0 {
        assert(insert_sorted(c, s) =~= seq![c]);
        assert(seq![c].drop_last() =~= Seq::<CopyCmd>::empty());
        assert(seq![c].last() == c);
        assert(sizes_sum(Seq::<CopyCmd>::empty()) == 0);
        assert(sizes_sum(seq![c]) == c.size);
    } else if s.last().target <= c.target {
        assert(insert_sorted(c, s) == s.push(c));
        assert(s.push(c).drop_last() =~= s);
        assert(sizes_sum(s.push(c)) == sizes_sum(s) + c.size);
    } else {
        lemma_sizes_sum_insert_sorted(c, s.drop_last());
        let pre = insert_sorted(c, s.drop_last());
        assert(insert_sorted(c, s) == pre.push(s.last()));
        assert(pre.push(s.last()).drop_last() =~= pre);
        assert(sizes_sum(pre.push(s.last())) == sizes_sum(pre) + s.last().size);
        assert(sizes_sum(s) == sizes_sum(s.drop_last()) + s.last().size);
    }
}

pub proof fn lemma_sizes_sum_sort(s: Seq<CopyCmd>)
    ensures
        sizes_sum(sort_by_target(s)) == sizes_sum(s),
    decreases s.len(),
{
    if s.len() > 0 {
        lemma_sizes_sum_sort(s.drop_last());
        lemma_sizes_sum_insert_sorted(s.last(), sort_by_target(s.drop_last()));
    }
}

pub proof fn lemma_sizes_sum_merge_pass(s: Seq<CopyCmd>)
    ensures
        sizes_sum(merge_pass(s)) == sizes_sum(s),
    decreases s.len(),
{
    if s.len() > 0 {
        lemma_sizes_sum_merge_pass(s.drop_last());
        let acc = merge_pass(s.drop_last());
        let c = s.last();
        assert(merge_pass(s) == merge_step(acc, c));
        assert(sizes_sum(s) == sizes_sum(s.drop_last()) + c.size);
        if acc.len() > 0 && cmds_mergeable(acc.last(), c) {
            let m = cmds_merged(acc.last(), c);
            assert(merge_pass(s) == acc.drop_last().push(m));
            assert(acc.drop_last().push(m).drop_last() =~= acc.drop_last());
            assert(sizes_sum(acc.drop_last().push(m)) == sizes_sum(acc.drop_last()) + m.size);
            assert(sizes_sum(acc) == sizes_sum(acc.drop_last()) + acc.last().size);
        } else {
            assert(merge_pass(s) == acc.push(c));
            assert(acc.push(c).drop_last() =~= acc);
            assert(sizes_sum(acc.push(c)) == sizes_sum(acc) + c.size);
        }
    }
}

pub proof fn lemma_sizes_sum_drop_zeros(s: Seq<CopyCmd>)
    ensures
        sizes_sum(drop_zeros(s)) == sizes_sum(s),
    decreases s.len(),
{
    if s.len() > 0 {
        broadcast use Seq::lemma_filter_push;

        lemma_sizes_sum_drop_zeros(s.drop_last());
        assert(s =~= s.drop_last().push(s.last()));
        assert(drop_zeros(s.drop_last().push(s.last())) == (if s.last().size != 0 {
            drop_zeros(s.drop_last()).push(s.last())
        } else {
            drop_zeros(s.drop_last())
        }));
        assert(sizes_sum(s) == sizes_sum(s.drop_last()) + s.last().size);
        if s.last().size != 0 {
            let pre = drop_zeros(s.drop_last());
            assert(pre.push(s.last()).drop_last() =~= pre);
            assert(sizes_sum(pre.push(s.last())) == sizes_sum(pre) + s.last().size);
        }
    }
}

/// Coalescing moves bytes between commands but never changes their total.
pub proof fn lemma_sizes_sum_coalesce(s: Seq<CopyCmd>)
    ensures
        sizes_sum(coalesce(s)) == sizes_sum(s),
{
    if s.len() <= 1 {
        lemma_sizes_sum_drop_zeros(s);
    } else {
        lemma_sizes_sum_sort(s);
        lemma_sizes_sum_merge_pass(sort_by_target(s));
        lemma_sizes_sum_drop_zeros(merge_pass(sort_by_target(s)));
    }
}

pub proof fn lemma_sizes_sum_rewrite(cmds: Seq<CopyCmd>)
    ensures
        sizes_sum(rewrite_sources(cmds)) == sizes_sum(cmds),
    decreases cmds.len(),
{
    if cmds.len() > 0 {
        lemma_sizes_sum_rewrite(cmds.drop_last());
        assert forall|i: int| 0 <= i < cmds.len() - 1 implies #[trigger] rewrite_sources(
            cmds,
        )[i] == rewrite_sources(cmds.drop_last())[i] by {
            assert(cmds.take(i) =~= cmds.drop_last().take(i));
        }
        assert(rewrite_sources(cmds).drop_last() =~= rewrite_sources(cmds.drop_last()));
        assert(rewrite_sources(cmds).last().size == cmds.last().size);
        assert(sizes_sum(rewrite_sources(cmds)) == sizes_sum(rewrite_sources(cmds).drop_last())
            + rewrite_sources(cmds).last().size);
        assert(sizes_sum(cmds) == sizes_sum(cmds.drop_last()) + cmds.last().size);
    }
}

/// Law: the residual the patch carries is never larger than the other
/// sequence, its length is the sum of the residual commands' sizes, and
/// coalescing the residual commands keeps that sum.
pub proof fn lemma_residual_monotonicity(
    other: Seq<u8>,
    bs: int,
    blocks: Seq<Block>,
    m: Map<Seq<u8>, u64>,
)
    requires
        1 <= bs,
        blocks_of(other, bs, blocks),
    ensures
        residual_data(other, emit_other(blocks, m)).len() == sizes_sum(emit_other(blocks, m)),
        residual_data(other, emit_other(blocks, m)).len() <= other.len(),
        sizes_sum(coalesce(rewrite_sources(emit_other(blocks, m)))) == residual_data(
            other,
            emit_other(blocks, m),
        ).len(),
{
    lemma_emit_other_src_in(other, bs, blocks, m);
    lemma_residual_data_len(other, emit_other(blocks, m));
    lemma_sizes_sum_emit_other_le(blocks, m);
    lemma_blocks_sizes_sum_shaped(other, bs, blocks, blocks.len() as int);
    assert(blocks.take(blocks.len() as int) =~= blocks);
    lemma_num_blocks_bounds(other.len() as int, bs);
    lemma_sizes_sum_coalesce(rewrite_sources(emit_other(blocks, m)));
    lemma_sizes_sum_rewrite(emit_other(blocks, m));
}

/// Law: for bytewise-identical base and other the differ returns empty
/// command lists (an ensures of `compute_diff`); a patch built from empty
/// lists carries no residual and no commands, and applying it touches nothing:
/// the reconstruction is the zero-filled buffer.
pub proof fn lemma_self_synchronization(base: Seq<u8>, other: Seq<u8>, n: int)
    requires
        n >= 0,
    ensures
        residual_data(other, Seq::<CopyCmd>::empty()) == Seq::<u8>::empty(),
        coalesce(Seq::<CopyCmd>::empty()) == Seq::<CopyCmd>::empty(),
        coalesce(rewrite_sources(Seq::<CopyCmd>::empty())) == Seq::<CopyCmd>::empty(),
        apply_cmds(zero_seq(n), base, Seq::<CopyCmd>::empty()) == zero_seq(n),
{
    assert(rewrite_sources(Seq::<CopyCmd>::empty()) =~= Seq::<CopyCmd>::empty());
}






/// The two commands write disjoint ranges of the reconstruction.
pub open spec fn ranges_disjoint(a: CopyCmd, b: CopyCmd) -> bool {
    a.target + a.size <= b.target || b.target + b.size <= a.target
}

/// No two commands of the list write a common position.
pub open spec fn targets_disjoint(s: Seq<CopyCmd>) -> bool {
    forall|i: int, j: int|
        0 <= i < s.len() && 0 <= j < s.len() && i != j ==> ranges_disjoint(
            #[trigger] s[i],
            #[trigger] s[j],
        )
}

/// The source position the last command covering `p` reads from; meaningful
/// only where some command covers `p`.
pub open spec fn covered_src(s: Seq<CopyCmd>, p: int) -> int
    decreases s.len(),
{
    if s.len() == 0 {
        0
    } else if covers(s.last(), p) {
        s.last().source + p - s.last().target
    } else {
        covered_src(s.drop_last(), p)
    }
}

/// What a command list writes at one position: the byte the last covering
/// command reads, or the old byte where none covers it.
pub proof fn lemma_apply_pointwise(dst: Seq<u8>, src: Seq<u8>, s: Seq<CopyCmd>, p: int)
    requires
        cmds_src_all_in(s, src.len() as int),
        cmds_dst_all_in(s, dst.len() as int),
        0 <= p < dst.len(),
    ensures
        cover_count(s, p) == 0 ==> apply_cmds(dst, src, s)[p] == dst[p],
        cover_count(s, p) > 0 ==> 0 <= covered_src(s, p) < src.len() && apply_cmds(dst, src, s)[p]
            == src[covered_src(s, p)],
    decreases s.len(),
{
    if s.len() > 0 {
        lemma_apply_pointwise(dst, src, s.drop_last(), p);
        lemma_apply_cmds_len(dst, src, s.drop_last());
        lemma_cover_count_nonneg(s.drop_last(), p);
        let c = s.last();
        assert(cmd_src_in(s[s.len() - 1], src.len() as int));
        assert(cmd_dst_in(s[s.len() - 1], dst.len() as int));
        assert(cover_count(s, p) == cover_count(s.drop_last(), p) + (if covers(c, p) {
            1int
        } else {
            0int
        }));
        assert(apply_cmds(dst, src, s) == write_cmd(apply_cmds(dst, src, s.drop_last()), src, c));
    }
}

pub proof fn lemma_cover_one(s: Seq<CopyCmd>, p: int, i: int)
    requires
        0 <= i < s.len(),
        covers(s[i], p),
    ensures
        cover_count(s, p) >= 1,
    decreases s.len(),
{
    lemma_cover_count_nonneg(s.drop_last(), p);
    if i < s.len() - 1 {
        lemma_cover_one(s.drop_last(), p, i);
    }
}

pub proof fn lemma_cover_two(s: Seq<CopyCmd>, p: int, i: int, j: int)
    requires
        0 <= i < j < s.len(),
        covers(s[i], p),
        covers(s[j], p),
    ensures
        cover_count(s, p) >= 2,
    decreases s.len(),
{
    if j == s.len() - 1 {
        lemma_cover_one(s.drop_last(), p, i);
    } else {
        lemma_cover_two(s.drop_last(), p, i, j);
        lemma_cover_count_nonneg(s.drop_last(), p);
    }
}

pub proof fn lemma_cover_exists(s: Seq<CopyCmd>, p: int)
    requires
        cover_count(s, p) > 0,
    ensures
        exists|i: int| 0 <= i < s.len() && covers(#[trigger] s[i], p),
    decreases s.len(),
{
    if s.len() > 0 {
        if covers(s.last(), p) {
            assert(covers(s[s.len() - 1], p));
        } else {
            lemma_cover_exists(s.drop_last(), p);
            let i = choose|i: int| 0 <= i < s.drop_last().len() && covers(
                #[trigger] s.drop_last()[i],
                p,
            );
            assert(covers(s[i], p));
        }
    }
}

/// With disjoint targets the covering command is unique, and `covered_src`
/// reads through it.
pub proof fn lemma_covered_src_unique(s: Seq<CopyCmd>, p: int, i: int)
    requires
        targets_disjoint(s),
        0 <= i < s.len(),
        covers(s[i], p),
    ensures
        covered_src(s, p) == s[i].source + p - s[i].target,
    decreases s.len(),
{
    if i == s.len() - 1 {
    } else {
        assert(ranges_disjoint(s[i], s[s.len() - 1]));
        assert(!covers(s.last(), p));
        assert(forall|a: int, b: int|
            0 <= a < s.drop_last().len() && 0 <= b < s.drop_last().len() && a != b
                ==> ranges_disjoint(#[trigger] s.drop_last()[a], #[trigger] s.drop_last()[b]));
        lemma_covered_src_unique(s.drop_last(), p, i);
    }
}

pub proof fn lemma_insert_sorted_contains(c: CopyCmd, s: Seq<CopyCmd>, x: CopyCmd)
    ensures
        insert_sorted(c, s).contains(x) == (x == c || s.contains(x)),
    decreases s.len(),
{
    broadcast use vstd::seq_lib::group_seq_properties;

    if s.len() == 0 {
        assert(insert_sorted(c, s) =~= Seq::<CopyCmd>::empty().push(c));
    } else if s.last().target <= c.target {
    } else {
        lemma_insert_sorted_contains(c, s.drop_last(), x);
        assert(s.contains(x) == (s.drop_last().contains(x) || x == s.last()));
    }
}

pub proof fn lemma_sort_contains(s: Seq<CopyCmd>, x: CopyCmd)
    ensures
        sort_by_target(s).contains(x) == s.contains(x),
    decreases s.len(),
{
    broadcast use vstd::seq_lib::group_seq_properties;

    if s.len() > 0 {
        lemma_sort_contains(s.drop_last(), x);
        lemma_insert_sorted_contains(s.last(), sort_by_target(s.drop_last()), x);
        assert(s.contains(x) == (s.drop_last().contains(x) || x == s.last()));
    }
}

pub proof fn lemma_insert_sorted_disjoint(c: CopyCmd, s: Seq<CopyCmd>)
    requires
        targets_disjoint(s),
        forall|i: int| 0 <= i < s.len() ==> ranges_disjoint(c, #[trigger] s[i]),
    ensures
        targets_disjoint(insert_sorted(c, s)),
    decreases s.len(),
{
    if s.len() == 0 {
        assert(insert_sorted(c, s) =~= seq![c]);
    } else if s.last().target <= c.target {
        let t = s.push(c);
        assert forall|i: int, j: int|
            0 <= i < t.len() && 0 <= j < t.len() && i != j implies ranges_disjoint(
            #[trigger] t[i],
            #[trigger] t[j],
        ) by {
            if i < s.len() && j < s.len() {
                assert(ranges_disjoint(s[i], s[j]));
            } else if i < s.len() {
                assert(ranges_disjoint(c, s[i]));
            } else {
                assert(ranges_disjoint(c, s[j]));
            }
        }
    } else {
        assert(forall|a: int, b: int|
            0 <= a < s.drop_last().len() && 0 <= b < s.drop_last().len() && a != b
                ==> ranges_disjoint(#[trigger] s.drop_last()[a], #[trigger] s.drop_last()[b]));
        assert(forall|i: int|
            0 <= i < s.drop_last().len() ==> ranges_disjoint(c, #[trigger] s.drop_last()[i]));
        lemma_insert_sorted_disjoint(c, s.drop_last());
        let pre = insert_sorted(c, s.drop_last());
        let t = pre.push(s.last());
        assert forall|i: int| 0 <= i < pre.len() implies ranges_disjoint(
            s.last(),
            #[trigger] pre[i],
        ) by {
            lemma_insert_sorted_contains(c, s.drop_last(), pre[i]);
            assert(pre.contains(pre[i]));
            if pre[i] == c {
            } else {
                let k = choose|k: int| 0 <= k < s.drop_last().len() && s.drop_last()[k] == pre[i];
                assert(ranges_disjoint(s[k], s[s.len() - 1]));
            }
        }
        assert forall|i: int, j: int|
            0 <= i < t.len() && 0 <= j < t.len() && i != j implies ranges_disjoint(
            #[trigger] t[i],
            #[trigger] t[j],
        ) by {
            if i < pre.len() && j < pre.len() {
                assert(ranges_disjoint(pre[i], pre[j]));
            } else if i < pre.len() {
                assert(ranges_disjoint(s.last(), pre[i]));
            } else {
                assert(ranges_disjoint(s.last(), pre[j]));
            }
        }
    }
}

pub proof fn lemma_sort_disjoint(s: Seq<CopyCmd>)
    requires
        targets_disjoint(s),
    ensures
        targets_disjoint(sort_by_target(s)),
    decreases s.len(),
{
    if s.len() > 0 {
        assert(forall|a: int, b: int|
            0 <= a < s.drop_last().len() && 0 <= b < s.drop_last().len() && a != b
                ==> ranges_disjoint(#[trigger] s.drop_last()[a], #[trigger] s.drop_last()[b]));
        lemma_sort_disjoint(s.drop_last());
        let pre = sort_by_target(s.drop_last());
        assert forall|i: int| 0 <= i < pre.len() implies ranges_disjoint(
            s.last(),
            #[trigger] pre[i],
        ) by {
            lemma_sort_contains(s.drop_last(), pre[i]);
            assert(pre.contains(pre[i]));
            let k = choose|k: int| 0 <= k < s.drop_last().len() && s.drop_last()[k] == pre[i];
            assert(ranges_disjoint(s[k], s[s.len() - 1]));
        }
        lemma_insert_sorted_disjoint(s.last(), pre);
    }
}

pub proof fn lemma_sort_covered_src(s: Seq<CopyCmd>, p: int)
    requires
        targets_disjoint(s),
        cover_count(s, p) > 0,
    ensures
        covered_src(sort_by_target(s), p) == covered_src(s, p),
{
    lemma_sort_cover(s, p);
    lemma_cover_exists(sort_by_target(s), p);
    let j = choose|j: int| 0 <= j < sort_by_target(s).len() && covers(
        #[trigger] sort_by_target(s)[j],
        p,
    );
    let x = sort_by_target(s)[j];
    lemma_sort_contains(s, x);
    assert(sort_by_target(s).contains(x));
    let i = choose|i: int| 0 <= i < s.len() && s[i] == x;
    lemma_sort_disjoint(s);
    lemma_covered_src_unique(sort_by_target(s), p, j);
    lemma_covered_src_unique(s, p, i);
}

pub proof fn lemma_merge_pass_covered_src(s: Seq<CopyCmd>, p: int)
    requires
        cover_count(s, p) > 0,
    ensures
        covered_src(merge_pass(s), p) == covered_src(s, p),
    decreases s.len(),
{
    if s.len() > 0 {
        let acc = merge_pass(s.drop_last());
        let c = s.last();
        assert(merge_pass(s) == merge_step(acc, c));
        assert(cover_count(s, p) == cover_count(s.drop_last(), p) + (if covers(c, p) {
            1int
        } else {
            0int
        }));
        lemma_cover_count_nonneg(s.drop_last(), p);
        if acc.len() > 0 && cmds_mergeable(acc.last(), c) {
            let m = cmds_merged(acc.last(), c);
            let out = acc.drop_last().push(m);
            assert(out.last() == m);
            assert(out.drop_last() =~= acc.drop_last());
            if covers(c, p) {
                assert(covers(m, p));
                assert(m.source + p - m.target == c.source + p - c.target);
            } else {
                lemma_merge_pass_covered_src(s.drop_last(), p);
                lemma_merge_pass_cover(s.drop_last(), p);
                if covers(acc.last(), p) {
                    assert(covers(m, p));
                    assert(m.source + p - m.target == acc.last().source + p - acc.last().target);
                    assert(covered_src(acc, p) == acc.last().source + p - acc.last().target);
                } else {
                    assert(!covers(m, p));
                    assert(covered_src(out, p) == covered_src(acc.drop_last(), p));
                    assert(covered_src(acc, p) == covered_src(acc.drop_last(), p));
                }
            }
        } else {
            if covers(c, p) {
                assert(merge_pass(s).last() == c);
            } else {
                lemma_merge_pass_covered_src(s.drop_last(), p);
                assert(acc.push(c).drop_last() =~= acc);
            }
        }
    }
}

pub proof fn lemma_drop_zeros_covered_src(s: Seq<CopyCmd>, p: int)
    ensures
        covered_src(drop_zeros(s), p) == covered_src(s, p) || cover_count(s, p) == 0,
    decreases s.len(),
{
    broadcast use Seq::lemma_filter_push;

    if s.len() > 0 {
        lemma_drop_zeros_covered_src(s.drop_last(), p);
        lemma_drop_zeros_cover(s.drop_last(), p);
        lemma_cover_count_nonneg(s.drop_last(), p);
        assert(s =~= s.drop_last().push(s.last()));
        assert(drop_zeros(s.drop_last().push(s.last())) == (if s.last().size != 0 {
            drop_zeros(s.drop_last()).push(s.last())
        } else {
            drop_zeros(s.drop_last())
        }));
        assert(cover_count(s, p) == cover_count(s.drop_last(), p) + (if covers(s.last(), p) {
            1int
        } else {
            0int
        }));
        if s.last().size != 0 {
            let pre = drop_zeros(s.drop_last());
            assert(pre.push(s.last()).drop_last() =~= pre);
            assert(pre.push(s.last()).last() == s.last());
        } else {
            assert(!covers(s.last(), p));
        }
    }
}

pub proof fn lemma_merge_pass_bounds(s: Seq<CopyCmd>, src_len: int, dst_len: int)
    requires
        cmds_src_all_in(s, src_len),
        cmds_dst_all_in(s, dst_len),
    ensures
        cmds_src_all_in(merge_pass(s), src_len),
        cmds_dst_all_in(merge_pass(s), dst_len),
    decreases s.len(),
{
    if s.len() > 0 {
        assert(forall|i: int|
            0 <= i < s.drop_last().len() ==> cmd_src_in(#[trigger] s.drop_last()[i], src_len)
                && cmd_dst_in(s.drop_last()[i], dst_len));
        lemma_merge_pass_bounds(s.drop_last(), src_len, dst_len);
        let acc = merge_pass(s.drop_last());
        let c = s.last();
        assert(cmd_src_in(s[s.len() - 1], src_len) && cmd_dst_in(s[s.len() - 1], dst_len));
        if acc.len() > 0 && cmds_mergeable(acc.last(), c) {
            let m = cmds_merged(acc.last(), c);
            let out = acc.drop_last().push(m);
            assert(cmd_src_in(acc[acc.len() - 1], src_len));
            assert(cmd_src_in(m, src_len) && cmd_dst_in(m, dst_len));
            assert forall|i: int| 0 <= i < out.len() implies cmd_src_in(#[trigger] out[i], src_len)
                && cmd_dst_in(out[i], dst_len) by {
                if i < out.len() - 1 {
                    assert(out[i] == acc[i]);
                }
            }
        } else {
            let out = acc.push(c);
            assert forall|i: int| 0 <= i < out.len() implies cmd_src_in(#[trigger] out[i], src_len)
                && cmd_dst_in(out[i], dst_len) by {
                if i < out.len() - 1 {
                    assert(out[i] == acc[i]);
                }
            }
        }
    }
}

pub proof fn lemma_drop_zeros_sub(s: Seq<CopyCmd>)
    ensures
        forall|i: int|
            0 <= i < drop_zeros(s).len() ==> s.contains(#[trigger] drop_zeros(s)[i]),
    decreases s.len(),
{
    broadcast use Seq::lemma_filter_push;
    broadcast use vstd::seq_lib::group_seq_properties;

    if s.len() > 0 {
        lemma_drop_zeros_sub(s.drop_last());
        assert(s =~= s.drop_last().push(s.last()));
        assert(drop_zeros(s.drop_last().push(s.last())) == (if s.last().size != 0 {
            drop_zeros(s.drop_last()).push(s.last())
        } else {
            drop_zeros(s.drop_last())
        }));
        let out = drop_zeros(s);
        assert forall|i: int| 0 <= i < out.len() implies s.contains(#[trigger] out[i]) by {
            if s.last().size != 0 {
                let pre = drop_zeros(s.drop_last());
                if i < pre.len() {
                    assert(out[i] == pre[i]);
                    assert(s.drop_last().contains(pre[i]));
                } else {
                    assert(out[i] == s.last());
                }
            } else {
                assert(out[i] == drop_zeros(s.drop_last())[i]);
                assert(s.drop_last().contains(out[i]));
            }
        }
    }
}

/// Law: applying a command list before or after coalescing writes the same
/// bytes, for any list whose commands stay in bounds and write disjoint
/// ranges.
pub proof fn lemma_coalesce_correctness(dst: Seq<u8>, src: Seq<u8>, s: Seq<CopyCmd>)
    requires
        cmds_src_all_in(s, src.len() as int),
        cmds_dst_all_in(s, dst.len() as int),
        targets_disjoint(s),
    ensures
        apply_cmds(dst, src, coalesce(s)) == apply_cmds(dst, src, s),
{
    if s.len() == 0 {
        assert(drop_zeros(s) == s);
    } else if s.len() == 1 {
        broadcast use Seq::lemma_filter_push;

        assert(s =~= Seq::<CopyCmd>::empty().push(s[0]));
        assert(drop_zeros(Seq::<CopyCmd>::empty().push(s[0])) == (if s[0].size != 0 {
            drop_zeros(Seq::<CopyCmd>::empty()).push(s[0])
        } else {
            drop_zeros(Seq::<CopyCmd>::empty())
        }));
        assert(drop_zeros(Seq::<CopyCmd>::empty()) =~= Seq::<CopyCmd>::empty());
        assert(s.drop_last() =~= Seq::<CopyCmd>::empty());
        assert(apply_cmds(dst, src, Seq::<CopyCmd>::empty()) == dst);
        assert(apply_cmds(dst, src, s) == write_cmd(dst, src, s.last()));
        if s[0].size == 0 {
            // an empty command writes nothing
            assert(write_cmd(dst, src, s[0]) =~= dst);
            assert(coalesce(s) =~= Seq::<CopyCmd>::empty());
        } else {
            assert(coalesce(s) =~= s);
        }
    } else {
        let t1 = sort_by_target(s);
        let t2 = merge_pass(t1);
        let t3 = drop_zeros(t2);
        assert(coalesce(s) == t3);
        // bounds carry through each stage
        assert forall|i: int| 0 <= i < t1.len() implies cmd_src_in(#[trigger] t1[i], src.len() as int)
            && cmd_dst_in(t1[i], dst.len() as int) by {
            lemma_sort_contains(s, t1[i]);
            assert(t1.contains(t1[i]));
            let k = choose|k: int| 0 <= k < s.len() && s[k] == t1[i];
            assert(cmd_src_in(s[k], src.len() as int));
        }
        lemma_merge_pass_bounds(t1, src.len() as int, dst.len() as int);
        lemma_drop_zeros_sub(t2);
        assert forall|i: int| 0 <= i < t3.len() implies cmd_src_in(#[trigger] t3[i], src.len() as int)
            && cmd_dst_in(t3[i], dst.len() as int) by {
            assert(t2.contains(t3[i]));
            let k = choose|k: int| 0 <= k < t2.len() && t2[k] == t3[i];
            assert(cmd_src_in(t2[k], src.len() as int));
        }
        // pointwise equality
        lemma_apply_cmds_len(dst, src, s);
        lemma_apply_cmds_len(dst, src, t3);
        assert forall|p: int| 0 <= p < dst.len() implies apply_cmds(dst, src, t3)[p] == apply_cmds(
            dst,
            src,
            s,
        )[p] by {
            lemma_coalesce_cover(s, p);
            lemma_apply_pointwise(dst, src, s, p);
            lemma_apply_pointwise(dst, src, t3, p);
            lemma_cover_count_nonneg(s, p);
            if cover_count(s, p) > 0 {
                lemma_sort_covered_src(s, p);
                lemma_sort_cover(s, p);
                lemma_merge_pass_covered_src(t1, p);
                lemma_merge_pass_cover(t1, p);
                lemma_drop_zeros_covered_src(t2, p);
            }
        }
        assert(apply_cmds(dst, src, t3) =~= apply_cmds(dst, src, s));
    }
}

pub proof fn lemma_insert_sorted_sorted(c: CopyCmd, s: Seq<CopyCmd>)
    requires
        cmds_sorted(s),
    ensures
        cmds_sorted(insert_sorted(c, s)),
    decreases s.len(),
{
    if s.len() == 0 {
        assert(insert_sorted(c, s) =~= seq![c]);
    } else if s.last().target <= c.target {
        let t = s.push(c);
        assert forall|i: int, j: int| 0 <= i < j < t.len() implies (#[trigger] t[i]).target <= (
        #[trigger] t[j]).target by {
            if j < s.len() {
                assert(s[i].target <= s[j].target);
            } else if i < s.len() {
                assert(s[i].target <= s[s.len() - 1].target);
            }
        }
    } else {
        assert(forall|i: int, j: int|
            0 <= i < j < s.drop_last().len() ==> (#[trigger] s.drop_last()[i]).target <= (
            #[trigger] s.drop_last()[j]).target);
        lemma_insert_sorted_sorted(c, s.drop_last());
        let pre = insert_sorted(c, s.drop_last());
        let t = pre.push(s.last());
        assert forall|i: int| 0 <= i < pre.len() implies (#[trigger] pre[i]).target <= s.last().target by {
            lemma_insert_sorted_contains(c, s.drop_last(), pre[i]);
            assert(pre.contains(pre[i]));
            if pre[i] == c {
            } else {
                let k = choose|k: int| 0 <= k < s.drop_last().len() && s.drop_last()[k] == pre[i];
                assert(s[k].target <= s[s.len() - 1].target);
            }
        }
        assert forall|i: int, j: int| 0 <= i < j < t.len() implies (#[trigger] t[i]).target <= (
        #[trigger] t[j]).target by {
            if j < pre.len() {
                assert(pre[i].target <= pre[j].target);
            }
        }
    }
}

pub proof fn lemma_sort_sorted(s: Seq<CopyCmd>)
    ensures
        cmds_sorted(sort_by_target(s)),
    decreases s.len(),
{
    if s.len() > 0 {
        lemma_sort_sorted(s.drop_last());
        lemma_insert_sorted_sorted(s.last(), sort_by_target(s.drop_last()));
    }
}

pub proof fn lemma_sort_of_sorted_id(s: Seq<CopyCmd>)
    requires
        cmds_sorted(s),
    ensures
        sort_by_target(s) == s,
    decreases s.len(),
{
    if s.len() > 0 {
        assert(forall|i: int, j: int|
            0 <= i < j < s.drop_last().len() ==> (#[trigger] s.drop_last()[i]).target <= (
            #[trigger] s.drop_last()[j]).target);
        lemma_sort_of_sorted_id(s.drop_last());
        if s.len() == 1 {
            assert(insert_sorted(s.last(), Seq::<CopyCmd>::empty()) =~= seq![s.last()]);
            assert(seq![s.last()] =~= s);
        } else {
            assert(s.drop_last().last().target <= s.last().target) by {
                assert(s[s.len() - 2].target <= s[s.len() - 1].target);
            }
            assert(insert_sorted(s.last(), s.drop_last()) == s.drop_last().push(s.last()));
            assert(s.drop_last().push(s.last()) =~= s);
        }
    }
}

/// Every target in the merge output is a target of the input.
pub proof fn lemma_merge_pass_targets(s: Seq<CopyCmd>)
    ensures
        forall|i: int|
            0 <= i < merge_pass(s).len() ==> exists|k: int|
                0 <= k < s.len() && (#[trigger] merge_pass(s)[i]).target == s[k].target,
    decreases s.len(),
{
    if s.len() > 0 {
        lemma_merge_pass_targets(s.drop_last());
        let acc = merge_pass(s.drop_last());
        let c = s.last();
        let out = merge_pass(s);
        assert(out == merge_step(acc, c));
        assert forall|i: int| 0 <= i < out.len() implies exists|k: int|
            0 <= k < s.len() && (#[trigger] out[i]).target == s[k].target by {
            if acc.len() > 0 && cmds_mergeable(acc.last(), c) {
                if i < out.len() - 1 {
                    assert(out[i] == acc[i]);
                    let k = choose|k: int|
                        0 <= k < s.drop_last().len() && acc[i].target == s.drop_last()[k].target;
                    assert(out[i].target == s[k].target);
                } else {
                    assert(out[i].target == cmds_merged(acc.last(), c).target);
                    let k = choose|k: int|
                        0 <= k < s.drop_last().len() && acc[acc.len() - 1].target == s.drop_last()[k].target;
                    assert(out[i].target == s[k].target);
                }
            } else {
                if i < out.len() - 1 {
                    assert(out[i] == acc[i]);
                    let k = choose|k: int|
                        0 <= k < s.drop_last().len() && acc[i].target == s.drop_last()[k].target;
                    assert(out[i].target == s[k].target);
                } else {
                    assert(out[i].target == s[s.len() - 1].target);
                }
            }
        }
    }
}

pub proof fn lemma_merge_pass_sorted(s: Seq<CopyCmd>)
    requires
        cmds_sorted(s),
    ensures
        cmds_sorted(merge_pass(s)),
    decreases s.len(),
{
    if s.len() > 0 {
        assert(forall|i: int, j: int|
            0 <= i < j < s.drop_last().len() ==> (#[trigger] s.drop_last()[i]).target <= (
            #[trigger] s.drop_last()[j]).target);
        lemma_merge_pass_sorted(s.drop_last());
        lemma_merge_pass_targets(s.drop_last());
        let acc = merge_pass(s.drop_last());
        let c = s.last();
        let out = merge_pass(s);
        assert(out == merge_step(acc, c));
        assert forall|i: int| 0 <= i < acc.len() implies (#[trigger] acc[i]).target
            <= c.target by {
            let k = choose|k: int|
                0 <= k < s.drop_last().len() && acc[i].target == s.drop_last()[k].target;
            assert(s[k].target <= s[s.len() - 1].target);
        }
        if acc.len() > 0 && cmds_mergeable(acc.last(), c) {
            let m = cmds_merged(acc.last(), c);
            assert forall|i: int, j: int| 0 <= i < j < out.len() implies (#[trigger] out[i]).target
                <= (#[trigger] out[j]).target by {
                if j < out.len() - 1 {
                    assert(acc[i].target <= acc[j].target);
                } else {
                    assert(out[j].target == acc[acc.len() - 1].target);
                    assert(acc[i].target <= acc[acc.len() - 1].target);
                }
            }
        } else {
            assert forall|i: int, j: int| 0 <= i < j < out.len() implies (#[trigger] out[i]).target
                <= (#[trigger] out[j]).target by {
                if j < out.len() - 1 {
                    assert(acc[i].target <= acc[j].target);
                }
            }
        }
    }
}

/// After the merge walk no two neighbouring commands can merge further.
pub proof fn lemma_merge_pass_no_adjacent(s: Seq<CopyCmd>)
    ensures
        forall|i: int|
            0 <= i < merge_pass(s).len() - 1 ==> !cmds_mergeable(
                #[trigger] merge_pass(s)[i],
                merge_pass(s)[i + 1],
            ),
    decreases s.len(),
{
    if s.len() > 0 {
        lemma_merge_pass_no_adjacent(s.drop_last());
        let acc = merge_pass(s.drop_last());
        let c = s.last();
        let out = merge_pass(s);
        assert(out == merge_step(acc, c));
        if acc.len() > 0 && cmds_mergeable(acc.last(), c) {
            let m = cmds_merged(acc.last(), c);
            assert forall|i: int| 0 <= i < out.len() - 1 implies !cmds_mergeable(
                #[trigger] out[i],
                out[i + 1],
            ) by {
                if i < out.len() - 2 {
                    assert(out[i] == acc[i] && out[i + 1] == acc[i + 1]);
                    assert(!cmds_mergeable(acc[i], acc[i + 1]));
                } else {
                    // the merged command keeps its left end and grows: a pair
                    // that would not merge before cannot merge now
                    assert(out[i] == acc[acc.len() - 2] && out[i + 1] == m);
                    assert(!cmds_mergeable(acc[acc.len() - 2], acc[acc.len() - 1]));
                }
            }
        } else {
            assert forall|i: int| 0 <= i < out.len() - 1 implies !cmds_mergeable(
                #[trigger] out[i],
                out[i + 1],
            ) by {
                if i < out.len() - 2 {
                    assert(out[i] == acc[i] && out[i + 1] == acc[i + 1]);
                    assert(!cmds_mergeable(acc[i], acc[i + 1]));
                } else {
                    assert(out[i] == acc[acc.len() - 1] && out[i + 1] == c);
                }
            }
        }
    }
}

pub proof fn lemma_merge_pass_positive(s: Seq<CopyCmd>)
    requires
        forall|i: int| 0 <= i < s.len() ==> (#[trigger] s[i]).size > 0,
    ensures
        forall|i: int| 0 <= i < merge_pass(s).len() ==> (#[trigger] merge_pass(s)[i]).size > 0,
    decreases s.len(),
{
    if s.len() > 0 {
        assert(forall|i: int|
            0 <= i < s.drop_last().len() ==> (#[trigger] s.drop_last()[i]).size > 0);
        lemma_merge_pass_positive(s.drop_last());
        let acc = merge_pass(s.drop_last());
        let c = s.last();
        let out = merge_pass(s);
        assert(out == merge_step(acc, c));
        assert(s[s.len() - 1].size > 0);
        assert forall|i: int| 0 <= i < out.len() implies (#[trigger] out[i]).size > 0 by {
            if acc.len() > 0 && cmds_mergeable(acc.last(), c) {
                if i < out.len() - 1 {
                    assert(out[i] == acc[i]);
                } else {
                    assert(acc[acc.len() - 1].size > 0);
                }
            } else {
                if i < out.len() - 1 {
                    assert(out[i] == acc[i]);
                }
            }
        }
    }
}

pub proof fn lemma_drop_zeros_id(s: Seq<CopyCmd>)
    requires
        forall|i: int| 0 <= i < s.len() ==> (#[trigger] s[i]).size > 0,
    ensures
        drop_zeros(s) == s,
    decreases s.len(),
{
    broadcast use Seq::lemma_filter_push;

    if s.len() > 0 {
        assert(forall|i: int|
            0 <= i < s.drop_last().len() ==> (#[trigger] s.drop_last()[i]).size > 0);
        lemma_drop_zeros_id(s.drop_last());
        assert(s =~= s.drop_last().push(s.last()));
        assert(s[s.len() - 1].size > 0);
        assert(drop_zeros(s.drop_last().push(s.last())) == drop_zeros(s.drop_last()).push(
            s.last(),
        ));
        assert(s.drop_last().push(s.last()) =~= s);
    } else {
        assert(drop_zeros(s) == s);
    }
}

pub proof fn lemma_merge_pass_of_settled_id(s: Seq<CopyCmd>)
    requires
        forall|i: int| 0 <= i < s.len() - 1 ==> !cmds_mergeable(#[trigger] s[i], s[i + 1]),
    ensures
        merge_pass(s) == s,
    decreases s.len(),
{
    if s.len() > 0 {
        assert(forall|i: int|
            0 <= i < s.drop_last().len() - 1 ==> !cmds_mergeable(
                #[trigger] s.drop_last()[i],
                s.drop_last()[i + 1],
            ));
        lemma_merge_pass_of_settled_id(s.drop_last());
        let c = s.last();
        if s.len() >= 2 {
            assert(!cmds_mergeable(s[s.len() - 2], s[s.len() - 1]));
            assert(s.drop_last().last() == s[s.len() - 2]);
        }
        assert(merge_pass(s) == merge_step(s.drop_last(), c));
        assert(s.drop_last().push(c) =~= s);
    }
}

/// Law: running the coalescing pass twice gives what one pass gives, for any
/// list of commands that all carry at least one byte.
pub proof fn lemma_coalesce_idempotent(s: Seq<CopyCmd>)
    requires
        forall|i: int| 0 <= i < s.len() ==> (#[trigger] s[i]).size > 0,
    ensures
        coalesce(coalesce(s)) == coalesce(s),
{
    if s.len() <= 1 {
        lemma_drop_zeros_id(s);
        assert(coalesce(s) == s);
        lemma_drop_zeros_id(coalesce(s));
    } else {
        let t1 = sort_by_target(s);
        let t2 = merge_pass(t1);
        assert forall|i: int| 0 <= i < t1.len() implies (#[trigger] t1[i]).size > 0 by {
            lemma_sort_contains(s, t1[i]);
            assert(t1.contains(t1[i]));
            let k = choose|k: int| 0 <= k < s.len() && s[k] == t1[i];
            assert(s[k].size > 0);
        }
        lemma_merge_pass_positive(t1);
        lemma_drop_zeros_id(t2);
        assert(coalesce(s) == t2);
        lemma_sort_sorted(s);
        lemma_merge_pass_sorted(t1);
        lemma_merge_pass_no_adjacent(t1);
        if t2.len() <= 1 {
        } else {
            lemma_sort_of_sorted_id(t2);
            lemma_merge_pass_of_settled_id(t2);
            lemma_drop_zeros_id(t2);
            assert(coalesce(t2) == t2);
        }
    }
}

pub proof fn lemma_block_in_range(other: Seq<u8>, bs: int, blocks: Seq<Block>, k: int)
    requires
        1 <= bs,
        blocks_of(other, bs, blocks),
        0 <= k < blocks.len(),
    ensures
        blocks[k].size >= 1,
        blocks[k].offset + blocks[k].size <= other.len(),
        blocks[k].offset == k * bs,
        blocks[k].offset + blocks[k].size == chunk_end(other.len() as int, bs, k),
{
    assert(block_is_chunk(other, bs, blocks[k], k));
    lemma_num_blocks_bounds(other.len() as int, bs);
    let nb = num_blocks(other.len() as int, bs);
    if other.len() == 0 {
        vstd::arithmetic::mul::lemma_mul_inequality(1, nb, bs);
        assert(false);
    } else {
        vstd::arithmetic::mul::lemma_mul_inequality(k, nb - 1, bs);
        assert(k * bs < other.len());
    }
}

/// Every base copy is one matched block's identity range, reads inside base,
/// and (absent strong-hash collisions) fetches exactly the block's bytes.
pub proof fn lemma_emit_base_fetch(
    base: Seq<u8>,
    other: Seq<u8>,
    bs: int,
    blocks: Seq<Block>,
    m: Map<Seq<u8>, u64>,
)
    requires
        1 <= bs,
        forall|k: int| 0 <= k < blocks.len() ==> #[trigger] block_is_chunk(other, bs, blocks[k], k),
        forall|k: int| 0 <= k < blocks.len() ==> #[trigger] (k * bs) < other.len(),
        wf_match_map(m, base, bs),
        forall|i: int, w: int, k: int|
            #![trigger blake3_128_of(base.subrange(i, i + w)), chunk_of(other, bs, k)]
            0 <= i && i + w <= base.len() && 1 <= w && 0 <= k < blocks.len() && blake3_128_of(
                base.subrange(i, i + w),
            ) == blake3_128_of(chunk_of(other, bs, k)) ==> base.subrange(i, i + w) == chunk_of(
                other,
                bs,
                k,
            ),
    ensures
        forall|i: int|
            0 <= i < emit_base(blocks, m).len() ==> cmd_src_in(
                #[trigger] emit_base(blocks, m)[i],
                base.len() as int,
            ) && cmd_dst_in(emit_base(blocks, m)[i], other.len() as int) && emit_base(
                blocks,
                m,
            )[i].size > 0 && emit_base(blocks, m)[i].target >= 0,
        forall|i: int, p: int|
            #![trigger covers(emit_base(blocks, m)[i], p)]
            0 <= i < emit_base(blocks, m).len() && covers(emit_base(blocks, m)[i], p)
                ==> base[emit_base(blocks, m)[i].source + (p - emit_base(blocks, m)[i].target)]
                == other[p],
    decreases blocks.len(),
{
    if blocks.len() == 0 {
        assert(emit_base(blocks, m) =~= Seq::<CopyCmd>::empty());
    } else {
        assert(forall|k: int|
            0 <= k < blocks.drop_last().len() ==> #[trigger] block_is_chunk(
                other,
                bs,
                blocks.drop_last()[k],
                k,
            ));
        assert(forall|k: int|
            0 <= k < blocks.drop_last().len() ==> #[trigger] (k * bs) < other.len());
        lemma_emit_base_fetch(base, other, bs, blocks.drop_last(), m);
        let pre = emit_base(blocks.drop_last(), m);
        let b = blocks.last();
        let kl = blocks.len() - 1;
        if m.contains_key(b.hash_strong@) {
            let c = CopyCmd { source: m[b.hash_strong@], target: b.offset, size: b.size };
            let out = pre.push(c);
            assert(emit_base(blocks, m) == out);
            assert(block_is_chunk(other, bs, blocks[kl], kl));
            assert(match_evidence(base, bs, b.hash_strong@, m[b.hash_strong@]));
            let w = choose|w: int|
                1 <= w <= bs && m[b.hash_strong@] + w <= base.len() && #[trigger] blake3_128_of(
                    base.subrange(m[b.hash_strong@] as int, m[b.hash_strong@] + w),
                ) == b.hash_strong@;
            let src0 = m[b.hash_strong@] as int;
            assert(blake3_128_of(base.subrange(src0, src0 + w)) == blake3_128_of(
                chunk_of(other, bs, kl),
            ));
            assert(base.subrange(src0, src0 + w) == chunk_of(other, bs, kl));
            assert(base.subrange(src0, src0 + w).len() == w);
            assert(chunk_of(other, bs, kl).len() == b.size);
            assert(w == b.size);
            assert(kl * bs < other.len());
            assert forall|i: int| 0 <= i < out.len() implies cmd_src_in(
                #[trigger] out[i],
                base.len() as int,
            ) && cmd_dst_in(out[i], other.len() as int) && out[i].size > 0 && out[i].target
                >= 0 by {
                if i < pre.len() {
                    assert(out[i] == pre[i]);
                }
            }
            assert forall|i: int, p: int|
                #![trigger covers(out[i], p)]
                0 <= i < out.len() && covers(out[i], p) implies base[out[i].source + (p
                - out[i].target)] == other[p] by {
                if i < pre.len() {
                    assert(out[i] == pre[i]);
                } else {
                    let d = p - c.target;
                    assert(base.subrange(src0, src0 + w)[d] == chunk_of(other, bs, kl)[d]);
                    assert(chunk_of(other, bs, kl)[d] == other[kl * bs + d]);
                }
            }
        } else {
            assert(emit_base(blocks, m) == pre);
        }
    }
}

pub proof fn lemma_counts_to_disjoint(s: Seq<CopyCmd>, bound: int)
    requires
        forall|i: int| 0 <= i < s.len() ==> (#[trigger] s[i]).size > 0,
        forall|p: int| 0 <= p < bound ==> cover_count(s, p) <= 1,
        forall|i: int| 0 <= i < s.len() ==> (#[trigger] s[i]).target + s[i].size <= bound,
        forall|i: int| 0 <= i < s.len() ==> (#[trigger] s[i]).target >= 0,
    ensures
        targets_disjoint(s),
{
    assert forall|i: int, j: int|
        0 <= i < s.len() && 0 <= j < s.len() && i != j implies ranges_disjoint(
        #[trigger] s[i],
        #[trigger] s[j],
    ) by {
        if !ranges_disjoint(s[i], s[j]) {
            let p = if s[i].target >= s[j].target {
                s[i].target as int
            } else {
                s[j].target as int
            };
            assert(covers(s[i], p) && covers(s[j], p));
            if i < j {
                lemma_cover_two(s, p, i, j);
            } else {
                lemma_cover_two(s, p, j, i);
            }
            assert(0 <= p < bound);
            assert(false);
        }
    }
}

/// The byte the patch's residual buffer holds for command `j` at offset `d`
/// is the other sequence's byte that the command names.
pub proof fn lemma_residual_data_index(other: Seq<u8>, cmds: Seq<CopyCmd>, j: int, d: int)
    requires
        cmds_src_all_in(cmds, other.len() as int),
        0 <= j < cmds.len(),
        0 <= d < cmds[j].size,
    ensures
        0 <= sizes_sum(cmds.take(j)) + d < residual_data(other, cmds).len(),
        residual_data(other, cmds)[sizes_sum(cmds.take(j)) + d] == other[cmds[j].source + d],
    decreases cmds.len(),
{
    lemma_residual_data_len(other, cmds);
    lemma_sizes_sum_nonneg(cmds.take(j));
    lemma_sizes_sum_take_succ(cmds, j);
    lemma_sizes_sum_take_le(cmds, j + 1);
    if j == cmds.len() - 1 {
        assert(cmds.take(j) =~= cmds.drop_last());
        lemma_residual_data_len(other, cmds.drop_last());
        assert(residual_data(other, cmds) == residual_data(other, cmds.drop_last())
            + other.subrange(cmds.last().source as int, cmds.last().source + cmds.last().size));
        assert(residual_data(other, cmds)[sizes_sum(cmds.drop_last()) + d] == other.subrange(
            cmds.last().source as int,
            cmds.last().source + cmds.last().size,
        )[d]);
    } else {
        assert(forall|i: int|
            0 <= i < cmds.drop_last().len() ==> cmd_src_in(
                #[trigger] cmds.drop_last()[i],
                other.len() as int,
            ));
        assert(cmds.drop_last()[j] == cmds[j]);
        assert(cmds.drop_last().take(j) =~= cmds.take(j));
        lemma_residual_data_index(other, cmds.drop_last(), j, d);
        lemma_residual_data_len(other, cmds.drop_last());
        lemma_sizes_sum_take_succ(cmds.drop_last(), j);
        lemma_sizes_sum_take_le(cmds.drop_last(), j + 1);
        assert(residual_data(other, cmds)[sizes_sum(cmds.take(j)) + d] == residual_data(
            other,
            cmds.drop_last(),
        )[sizes_sum(cmds.take(j)) + d]);
    }
}

pub proof fn lemma_blocks_cover_exists(blocks: Seq<Block>, p: int)
    requires
        blocks_cover_count(blocks, p) > 0,
    ensures
        exists|k: int| 0 <= k < blocks.len() && block_covers(#[trigger] blocks[k], p),
    decreases blocks.len(),
{
    if blocks.len() > 0 {
        if block_covers(blocks.last(), p) {
            assert(block_covers(blocks[blocks.len() - 1], p));
        } else {
            lemma_blocks_cover_exists(blocks.drop_last(), p);
            let k = choose|k: int|
                0 <= k < blocks.drop_last().len() && block_covers(
                    #[trigger] blocks.drop_last()[k],
                    p,
                );
            assert(block_covers(blocks[k], p));
        }
    }
}

pub proof fn lemma_windows_lower(blocks: Seq<Block>, starts: Seq<int>, ends: Seq<int>, k: int)
    requires
        starts.len() == blocks.len(),
        ends.len() == blocks.len(),
        forall|j: int| 0 <= j < blocks.len() ==> 0 <= #[trigger] starts[j],
        forall|j: int|
            0 <= j < blocks.len() ==> #[trigger] ends[j] - starts[j] == blocks[j].size,
        forall|j: int| 1 <= j < blocks.len() ==> ends[j - 1] <= #[trigger] starts[j],
        0 <= k < blocks.len(),
    ensures
        starts[k] >= blocks_sizes_sum(blocks.take(k)),
    decreases k,
{
    if k == 0 {
        assert(blocks.take(0) =~= Seq::<Block>::empty());
    } else {
        lemma_windows_lower(blocks, starts, ends, k - 1);
        lemma_blocks_sizes_sum_take_succ(blocks, k - 1);
    }
}

pub proof fn lemma_windows_propagate(
    blocks: Seq<Block>,
    starts: Seq<int>,
    ends: Seq<int>,
    k: int,
    j: int,
)
    requires
        starts.len() == blocks.len(),
        ends.len() == blocks.len(),
        forall|i: int|
            0 <= i < blocks.len() ==> #[trigger] ends[i] - starts[i] == blocks[i].size,
        forall|i: int| 1 <= i < blocks.len() ==> ends[i - 1] <= #[trigger] starts[i],
        0 <= k <= j < blocks.len(),
    ensures
        starts[j] - blocks_sizes_sum(blocks.take(j)) >= starts[k] - blocks_sizes_sum(
            blocks.take(k),
        ),
    decreases j - k,
{
    if j > k {
        lemma_windows_propagate(blocks, starts, ends, k, j - 1);
        lemma_blocks_sizes_sum_take_succ(blocks, j - 1);
    }
}

/// Law: when the differ reports base and other synchronized — one matching
/// window per block, in order, with the total length agreeing — and the
/// strong hash admitted no false match, the windows tile the input exactly
/// and the input equals the fingerprinted sequence byte for byte.
pub proof fn lemma_sync_outcome_identity(
    input: Seq<u8>,
    other: Seq<u8>,
    bs: int,
    blocks: Seq<Block>,
    starts: Seq<int>,
    ends: Seq<int>,
)
    requires
        1 <= bs,
        blocks_of(other, bs, blocks),
        windows_match_blocks(input, bs, blocks, starts, ends),
        input.len() == blocks_sizes_sum(blocks),
        forall|i: int, w: int, k: int|
            #![trigger blake3_128_of(input.subrange(i, i + w)), chunk_of(other, bs, k)]
            0 <= i && i + w <= input.len() && 1 <= w && 0 <= k < blocks.len() && blake3_128_of(
                input.subrange(i, i + w),
            ) == blake3_128_of(chunk_of(other, bs, k)) ==> input.subrange(i, i + w) == chunk_of(
                other,
                bs,
                k,
            ),
    ensures
        input == other,
{
    let n = blocks.len() as int;
    lemma_blocks_sizes_sum_shaped(other, bs, blocks, n);
    assert(blocks.take(n) =~= blocks);
    lemma_num_blocks_bounds(other.len() as int, bs);
    assert(blocks_sizes_sum(blocks) == other.len());
    assert(input.len() == other.len());
    if n == 0 {
        assert(input =~= other);
    } else {
        // absent collisions each window holds exactly its block's bytes
        assert forall|k: int| 0 <= k < n implies input.subrange(starts[k], ends[k]) == chunk_of(
            other,
            bs,
            k,
        ) && #[trigger] ends[k] - starts[k] == blocks[k].size by {
            assert(block_is_chunk(other, bs, blocks[k], k));
            assert(blake3_128_of(input.subrange(starts[k], starts[k] + (ends[k] - starts[k])))
                == blake3_128_of(chunk_of(other, bs, k)));
            assert(input.subrange(starts[k], ends[k]) == chunk_of(other, bs, k));
            assert(chunk_of(other, bs, k).len() == blocks[k].size);
        }
        // the windows are squeezed: each starts exactly at its block's offset
        assert forall|k: int| 0 <= k < n implies #[trigger] starts[k] == blocks_sizes_sum(
            blocks.take(k),
        ) by {
            lemma_windows_lower(blocks, starts, ends, k);
            lemma_windows_propagate(blocks, starts, ends, k, n - 1);
            lemma_blocks_sizes_sum_take_succ(blocks, n - 1);
            assert(blocks.take(n) =~= blocks);
            assert(ends[n - 1] <= input.len());
        }
        // so the matching windows are the chunks themselves
        assert forall|p: int| 0 <= p < other.len() implies input[p] == other[p] by {
            lemma_blocks_cover_take(other, bs, blocks, n, p);
            assert(blocks.take(n) =~= blocks);
            lemma_blocks_cover_exists(blocks, p);
            let k = choose|k: int| 0 <= k < blocks.len() && block_covers(#[trigger] blocks[k], p);
            lemma_block_in_range(other, bs, blocks, k);
            lemma_blocks_sizes_sum_shaped(other, bs, blocks, k);
            assert(starts[k] == blocks[k].offset);
            let d = p - blocks[k].offset;
            assert(input.subrange(starts[k], ends[k])[d] == chunk_of(other, bs, k)[d]);
            assert(chunk_of(other, bs, k)[d] == other[k * bs + d]);
        }
        assert(input =~= other);
    }
}

/// Law: a patch built from the differ's commands reconstructs the other
/// sequence byte for byte, provided the strong hash admitted no false match
/// between base windows and other's blocks. The synchronized outcome, where
/// the differ returns empty lists, is outside this statement.
pub proof fn lemma_round_trip(
    base: Seq<u8>,
    other: Seq<u8>,
    bs: int,
    blocks: Seq<Block>,
    m: Map<Seq<u8>, u64>,
)
    requires
        1 <= bs <= u32::MAX,
        other.len() <= u64::MAX,
        blocks_of(other, bs, blocks),
        wf_match_map(m, base, bs),
        forall|i: int, w: int, k: int|
            #![trigger blake3_128_of(base.subrange(i, i + w)), chunk_of(other, bs, k)]
            0 <= i && i + w <= base.len() && 1 <= w && 0 <= k < blocks.len() && blake3_128_of(
                base.subrange(i, i + w),
            ) == blake3_128_of(chunk_of(other, bs, k)) ==> base.subrange(i, i + w) == chunk_of(
                other,
                bs,
                k,
            ),
    ensures
        apply_cmds(
            apply_cmds(zero_seq(other.len() as int), base, coalesce(emit_base(blocks, m))),
            residual_data(other, emit_other(blocks, m)),
            coalesce(rewrite_sources(emit_other(blocks, m))),
        ) == other,
{
    let l = other.len() as int;
    let cb = emit_base(blocks, m);
    let co = emit_other(blocks, m);
    let rw = rewrite_sources(co);
    let data = residual_data(other, co);
    lemma_emit_other_elems(blocks, m);
    lemma_emit_other_src_in(other, bs, blocks, m);
    lemma_residual_data_len(other, co);
    lemma_sizes_sum_emit_other_le(blocks, m);
    lemma_blocks_sizes_sum_shaped(other, bs, blocks, blocks.len() as int);
    assert(blocks.take(blocks.len() as int) =~= blocks);
    lemma_num_blocks_bounds(l, bs);
    // each base copy fetches exactly its block's bytes out of base
    assert forall|k: int| 0 <= k < blocks.len() implies #[trigger] (k * bs) < other.len() by {
        lemma_block_in_range(other, bs, blocks, k);
    }
    lemma_emit_base_fetch(base, other, bs, blocks, m);
    // each residual copy is its block's identity range
    assert forall|i: int| 0 <= i < co.len() implies {
        &&& cmd_src_in(#[trigger] co[i], l)
        &&& cmd_dst_in(co[i], l)
        &&& co[i].size > 0
        &&& co[i].target >= 0
        &&& co[i].source == co[i].target
    } by {
        let k = choose|k: int|
            0 <= k < blocks.len() && co[i] == (CopyCmd {
                source: blocks[k].offset,
                target: blocks[k].offset,
                size: blocks[k].size,
            });
        lemma_block_in_range(other, bs, blocks, k);
    }
    // the lists tile the reconstruction: each position has one writer
    assert forall|p: int| 0 <= p < l implies cover_count(cb, p) + cover_count(co, p) == 1 by {
        lemma_emit_cover(blocks, m, p);
        lemma_blocks_cover_take(other, bs, blocks, blocks.len() as int, p);
    }
    assert forall|p: int| !(0 <= p < l) implies cover_count(cb, p) == 0 && cover_count(co, p)
        == 0 by {
        lemma_emit_cover(blocks, m, p);
        lemma_blocks_cover_take(other, bs, blocks, blocks.len() as int, p);
        lemma_cover_count_nonneg(cb, p);
        lemma_cover_count_nonneg(co, p);
    }
    assert forall|p: int| 0 <= p < l implies cover_count(cb, p) <= 1 && cover_count(co, p)
        <= 1 by {
        lemma_cover_count_nonneg(cb, p);
        lemma_cover_count_nonneg(co, p);
    }
    lemma_counts_to_disjoint(cb, l);
    lemma_counts_to_disjoint(co, l);
    // the rewritten residual commands stay inside the carried data
    assert(sizes_sum(co) == data.len());
    assert forall|i: int| 0 <= i < rw.len() implies {
        &&& cmd_src_in(#[trigger] rw[i], data.len() as int)
        &&& cmd_dst_in(rw[i], l)
        &&& rw[i].size > 0
        &&& rw[i].target >= 0
        &&& rw[i].target == co[i].target
        &&& rw[i].size == co[i].size
        &&& rw[i].source == sizes_sum(co.take(i))
    } by {
        lemma_sizes_sum_take_succ(co, i);
        lemma_sizes_sum_take_le(co, i + 1);
        lemma_sizes_sum_nonneg(co.take(i));
    }
    assert(targets_disjoint(rw)) by {
        assert forall|i: int, j: int|
            0 <= i < rw.len() && 0 <= j < rw.len() && i != j implies ranges_disjoint(
            #[trigger] rw[i],
            #[trigger] rw[j],
        ) by {
            assert(ranges_disjoint(co[i], co[j]));
        }
    }
    // drop the coalescing on both lists
    let zeros = zero_seq(l);
    lemma_coalesce_correctness(zeros, base, cb);
    let x = apply_cmds(zeros, base, cb);
    lemma_apply_cmds_len(zeros, base, cb);
    lemma_coalesce_correctness(x, data, rw);
    let y = apply_cmds(x, data, rw);
    lemma_apply_cmds_len(x, data, rw);
    assert(apply_cmds(zeros, base, coalesce(cb)) == x);
    assert(apply_cmds(x, data, coalesce(rw)) == y);
    // bytewise reconstruction
    assert forall|p: int| 0 <= p < l implies y[p] == other[p] by {
        lemma_apply_pointwise(zeros, base, cb, p);
        lemma_apply_pointwise(x, data, rw, p);
        lemma_rewrite_cover(co, p);
        if cover_count(co, p) == 0 {
            // a matched block's range: the base copy wrote the byte
            assert(cover_count(cb, p) == 1);
            lemma_cover_exists(cb, p);
            let i = choose|i: int| 0 <= i < cb.len() && covers(#[trigger] cb[i], p);
            lemma_covered_src_unique(cb, p, i);
            assert(x[p] == base[cb[i].source + (p - cb[i].target)]);
            assert(y[p] == x[p]);
        } else {
            // an unmatched block's range: the residual copy wrote the byte
            assert(cover_count(rw, p) > 0);
            lemma_cover_exists(rw, p);
            let i = choose|i: int| 0 <= i < rw.len() && covers(#[trigger] rw[i], p);
            lemma_covered_src_unique(rw, p, i);
            assert(y[p] == data[rw[i].source + (p - rw[i].target)]);
            let d = p - co[i].target;
            lemma_residual_data_index(other, co, i, d);
            assert(data[sizes_sum(co.take(i)) + d] == other[co[i].source + d]);
        }
    }
    assert(y =~= other);
}

} // verus!
