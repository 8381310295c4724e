use crate::hash::{sha256, sha256_digest};
use rand::seq::SliceRandom;
use rand::SeedableRng;
use vstd::prelude::*;

verus! {

/// Side of the square blocks that carry one bit each.
pub const BLOCK: usize = 8;

/// The detail subband of the one-level Haar transform that a block lies in.
#[derive(Debug, Clone, Copy, PartialEq, Eq)]
pub enum Subband {
    /// Top-right quadrant.
    Horizontal,
    /// Bottom-left quadrant.
    Vertical,
}

/// The top-left corner of an 8x8 block of the transformed plane.
#[derive(Debug, Clone, Copy, PartialEq, Eq)]
pub struct BlockRef {
    pub subband: Subband,
    pub x: usize,
    pub y: usize,
}

/// Number of blocks across one detail quadrant of a `width`-wide plane.
pub open spec fn blocks_across(width: int) -> int {
    width / 2 / 8
}

/// Number of candidate blocks: one per quadrant cell, in each of the two subbands.
pub open spec fn candidate_count(width: int, height: int) -> int {
    2 * (blocks_across(width) * blocks_across(height))
}

/// The `i`-th candidate block: cells go row by row, each cell giving its
/// horizontal-subband block and then its vertical-subband block.
pub open spec fn spec_candidate_block(width: int, height: int, i: int) -> BlockRef {
    let cell = i / 2;
    let row = cell / blocks_across(width);
    let col = cell % blocks_across(width);
    if i % 2 == 0 {
        BlockRef { subband: Subband::Horizontal, x: (width / 2 + col * 8) as usize, y: (row * 8) as usize }
    } else {
        BlockRef { subband: Subband::Vertical, x: (col * 8) as usize, y: (height / 2 + row * 8) as usize }
    }
}

/// All candidate blocks of a `width` x `height` plane.
pub open spec fn spec_candidate_blocks(width: int, height: int) -> Seq<BlockRef> {
    Seq::new(candidate_count(width, height) as nat, |i: int| spec_candidate_block(width, height, i))
}

proof fn lemma_cell_index(row: int, col: int, n: int)
    requires
        n > 0,
        0 <= col < n,
        row >= 0,
    ensures
        (row * n + col) / n == row,
        (row * n + col) % n == col,
        (2 * (row * n + col)) / 2 == row * n + col,
        (2 * (row * n + col)) % 2 == 0,
        (2 * (row * n + col) + 1) / 2 == row * n + col,
        (2 * (row * n + col) + 1) % 2 == 1,
{
    vstd::arithmetic::div_mod::lemma_fundamental_div_mod_converse(row * n + col, n, row, col);
    vstd::arithmetic::div_mod::lemma_fundamental_div_mod_converse(2 * (row * n + col), 2, row * n + col, 0);
    vstd::arithmetic::div_mod::lemma_fundamental_div_mod_converse(2 * (row * n + col) + 1, 2, row * n + col, 1);
}

/// Every 8x8 cell of the two detail quadrants (top right, bottom left) of the
/// one-level Haar transform of a `width` x `height` plane, cell row by cell row.
pub fn candidate_blocks(width: usize, height: usize) -> (blocks: Vec<BlockRef>)
    ensures
        blocks@ == spec_candidate_blocks(width as int, height as int),
{
    let half_w = width / 2;
    let half_h = height / 2;
    let blocks_x = half_w / BLOCK;
    let blocks_y = half_h / BLOCK;
    let mut blocks: Vec<BlockRef> = Vec::new();
    let mut by: usize = 0;
    while by < blocks_y
        invariant
            half_w == width / 2,
            half_h == height / 2,
            blocks_x == blocks_across(width as int),
            blocks_y == blocks_across(height as int),
            by <= blocks_y,
            blocks@.len() == 2 * (by * blocks_x),
            forall|i: int| 0 <= i < blocks@.len() ==> #[trigger] blocks@[i] == spec_candidate_block(width as int, height as int, i),
        decreases blocks_y - by,
    {
        let mut bx: usize = 0;
        while bx < blocks_x
            invariant
                half_w == width / 2,
                half_h == height / 2,
                blocks_x == blocks_across(width as int),
                blocks_y == blocks_across(height as int),
                by < blocks_y,
                bx <= blocks_x,
                blocks@.len() == 2 * (by * blocks_x + bx),
                forall|i: int| 0 <= i < blocks@.len() ==> #[trigger] blocks@[i] == spec_candidate_block(width as int, height as int, i),
            decreases blocks_x - bx,
        {
            proof {
                lemma_cell_index(by as int, bx as int, blocks_x as int);
                assert(bx * 8 + 8 <= half_w) by (nonlinear_arith)
                    requires
                        bx < blocks_x,
                        blocks_x == half_w / 8,
                ;
                assert(by * 8 + 8 <= half_h) by (nonlinear_arith)
                    requires
                        by < blocks_y,
                        blocks_y == half_h / 8,
                ;
            }
            blocks.push(BlockRef { subband: Subband::Horizontal, x: half_w + bx * BLOCK, y: by * BLOCK });
            blocks.push(BlockRef { subband: Subband::Vertical, x: bx * BLOCK, y: half_h + by * BLOCK });
            bx = bx + 1;
        }
        proof {
            assert((by + 1) * blocks_x == by * blocks_x + blocks_x) by (nonlinear_arith);
        }
        by = by + 1;
    }
    proof {
        assert(blocks_y * blocks_x == blocks_x * blocks_y) by (nonlinear_arith);
        assert(blocks@ =~= spec_candidate_blocks(width as int, height as int));
    }
    blocks
}


/// The block lies inside its detail quadrant of the even part of a `width` x `height` plane.
pub open spec fn block_in_quadrant(b: BlockRef, width: int, height: int) -> bool {
    match b.subband {
        Subband::Horizontal => width / 2 <= b.x && b.x + 8 <= 2 * (width / 2) && b.y + 8 <= height / 2,
        Subband::Vertical => b.x + 8 <= width / 2 && height / 2 <= b.y && b.y + 8 <= 2 * (height / 2),
    }
}

/// The two 8x8 blocks share no pixel.
pub open spec fn blocks_disjoint(a: BlockRef, b: BlockRef) -> bool {
    a.x + 8 <= b.x || b.x + 8 <= a.x || a.y + 8 <= b.y || b.y + 8 <= a.y
}

proof fn lemma_candidate_in_quadrant(width: int, height: int, i: int)
    requires
        0 <= width <= usize::MAX,
        0 <= height <= usize::MAX,
        0 <= i < candidate_count(width, height),
    ensures
        block_in_quadrant(spec_candidate_block(width, height, i), width, height),
        blocks_across(width) > 0,
        (i / 2) / blocks_across(width) * 8 + 8 <= height / 2,
        (i / 2) % blocks_across(width) * 8 + 8 <= width / 2,
{
    let n = blocks_across(width);
    let m = blocks_across(height);
    let cell = i / 2;
    assert(n > 0 && m > 0) by (nonlinear_arith)
        requires
            0 <= i < 2 * (n * m),
            n >= 0,
            m >= 0,
    ;
    assert(0 <= cell < n * m);
    let row = cell / n;
    let col = cell % n;
    assert(row < m) by (nonlinear_arith)
        requires
            0 <= cell < n * m,
            n > 0,
            row == cell / n,
    ;
    assert(col * 8 + 8 <= width / 2) by (nonlinear_arith)
        requires
            0 <= col < n,
            n == width / 2 / 8,
    ;
    assert(row * 8 + 8 <= height / 2) by (nonlinear_arith)
        requires
            0 <= row < m,
            m == height / 2 / 8,
    ;
}

proof fn lemma_candidates_disjoint(width: int, height: int, i: int, j: int)
    requires
        0 <= width <= usize::MAX,
        0 <= height <= usize::MAX,
        0 <= i < candidate_count(width, height),
        0 <= j < candidate_count(width, height),
        i != j,
    ensures
        blocks_disjoint(spec_candidate_block(width, height, i), spec_candidate_block(width, height, j)),
{
    lemma_candidate_in_quadrant(width, height, i);
    lemma_candidate_in_quadrant(width, height, j);
    let n = blocks_across(width);
    let m = blocks_across(height);
    assert(n > 0) by (nonlinear_arith)
        requires
            0 <= i < 2 * (n * m),
            n >= 0,
            m >= 0,
    ;
    if i % 2 == j % 2 {
        let ci = i / 2;
        let cj = j / 2;
        assert(ci != cj);
        vstd::arithmetic::div_mod::lemma_fundamental_div_mod(ci, n);
        vstd::arithmetic::div_mod::lemma_fundamental_div_mod(cj, n);
        let ri = ci / n;
        let rj = cj / n;
        let ki = ci % n;
        let kj = cj % n;
        let bi = spec_candidate_block(width, height, i);
        let bj = spec_candidate_block(width, height, j);
        if ki == kj {
            assert(ri != rj) by (nonlinear_arith)
                requires
                    ci == n * ri + ki,
                    cj == n * rj + kj,
                    ki == kj,
                    ci != cj,
            ;
            assert(bi.y + 8 <= bj.y || bj.y + 8 <= bi.y);
        } else {
            assert(bi.x + 8 <= bj.x || bj.x + 8 <= bi.x);
        }
    }
}

/// Every candidate block lies in its detail quadrant, and no two candidate blocks overlap.
pub proof fn lemma_candidate_blocks_layout(width: int, height: int)
    requires
        0 <= width <= usize::MAX,
        0 <= height <= usize::MAX,
    ensures
        spec_candidate_blocks(width, height).len() == candidate_count(width, height),
        forall|i: int|
            0 <= i < candidate_count(width, height) ==> block_in_quadrant(
                #[trigger] spec_candidate_blocks(width, height)[i],
                width,
                height,
            ),
        forall|i: int, j: int|
            0 <= i < candidate_count(width, height) && 0 <= j < candidate_count(width, height) && i != j
                ==> blocks_disjoint(
                #[trigger] spec_candidate_blocks(width, height)[i],
                #[trigger] spec_candidate_blocks(width, height)[j],
            ),
{
    assert(candidate_count(width, height) >= 0) by (nonlinear_arith)
        requires
            width >= 0,
            height >= 0,
            candidate_count(width, height) == 2 * ((width / 2 / 8) * (height / 2 / 8)),
    ;
    assert forall|i: int| 0 <= i < candidate_count(width, height) implies block_in_quadrant(
        #[trigger] spec_candidate_blocks(width, height)[i],
        width,
        height,
    ) by {
        lemma_candidate_in_quadrant(width, height, i);
    }
    assert forall|i: int, j: int|
        0 <= i < candidate_count(width, height) && 0 <= j < candidate_count(width, height) && i != j
            implies blocks_disjoint(
            #[trigger] spec_candidate_blocks(width, height)[i],
            #[trigger] spec_candidate_blocks(width, height)[j],
        ) by {
        lemma_candidates_disjoint(width, height, i, j);
    }
}


/// The eight big-endian bytes of `x`.
pub open spec fn be64_bytes(x: u64) -> Seq<u8> {
    seq![
        (x >> 56u64) as u8,
        (x >> 48u64) as u8,
        (x >> 40u64) as u8,
        (x >> 32u64) as u8,
        (x >> 24u64) as u8,
        (x >> 16u64) as u8,
        (x >> 8u64) as u8,
        x as u8,
    ]
}

/// The ASCII text `blind-watermark-blocks-v1`, which opens every block-seed message.
pub open spec fn block_seed_domain() -> Seq<u8> {
    seq![
        98u8, 108, 105, 110, 100, 45, 119, 97, 116, 101, 114, 109, 97, 114, 107, 45, 98, 108, 111,
        99, 107, 115, 45, 118, 49,
    ]
}

/// The message hashed into the block-order seed: domain text, key, then the plane's
/// width and height as big-endian 64-bit numbers.
pub open spec fn block_seed_message(key: Seq<u8>, width: int, height: int) -> Seq<u8> {
    block_seed_domain() + key + be64_bytes(width as u64) + be64_bytes(height as u64)
}

/// The seed of the block order for a key and a plane size.
pub open spec fn spec_block_seed(key: Seq<u8>, width: int, height: int) -> Seq<u8> {
    sha256(block_seed_message(key, width, height))
}

pub(crate) fn push_be64(out: &mut Vec<u8>, x: u64)
    ensures
        final(out)@ == old(out)@ + be64_bytes(x),
{
    out.push((x >> 56u64) as u8);
    out.push((x >> 48u64) as u8);
    out.push((x >> 40u64) as u8);
    out.push((x >> 32u64) as u8);
    out.push((x >> 24u64) as u8);
    out.push((x >> 16u64) as u8);
    out.push((x >> 8u64) as u8);
    out.push(x as u8);
    assert(out@ =~= old(out)@ + be64_bytes(x));
}

fn derive_seed(key: &[u8], width: usize, height: usize) -> (seed: [u8; 32])
    ensures
        seed@ == spec_block_seed(key@, width as int, height as int),
{
    let mut message: Vec<u8> = vec![
        98u8, 108, 105, 110, 100, 45, 119, 97, 116, 101, 114, 109, 97, 114, 107, 45, 98, 108, 111,
        99, 107, 115, 45, 118, 49,
    ];
    assert(message@ =~= block_seed_domain());
    let mut k: usize = 0;
    while k < key.len()
        invariant
            k <= key@.len(),
            message@ =~= block_seed_domain() + key@.take(k as int),
        decreases key@.len() - k,
    {
        message.push(key[k]);
        k = k + 1;
    }
    assert(key@.take(key@.len() as int) =~= key@);
    push_be64(&mut message, width as u64);
    push_be64(&mut message, height as u64);
    assert(message@ =~= block_seed_message(key@, width as int, height as int));
    sha256_digest(message.as_slice())
}

/// The order in which `rand`'s `SliceRandom::shuffle` leaves `items` when driven by a
/// `rand_chacha::ChaCha20Rng` seeded with `seed`.
pub uninterp spec fn chacha20_shuffle(seed: Seq<u8>, items: Seq<usize>) -> Seq<usize>;

/// Calls `rand_chacha::ChaCha20Rng::from_seed` and `rand::seq::SliceRandom::shuffle`.
/// The result is named by [`chacha20_shuffle`]; beyond that the contract claims only what
/// the shuffle's source shows: it swaps elements, so it keeps the length and the multiset.
#[verifier::external_body]
fn shuffle_with_seed(items: &mut Vec<usize>, seed: [u8; 32])
    ensures
        final(items)@ == chacha20_shuffle(seed@, old(items)@),
        final(items)@.len() == old(items)@.len(),
        final(items)@.to_multiset() == old(items)@.to_multiset(),
{
    let mut rng = rand_chacha::ChaCha20Rng::from_seed(seed);
    items.shuffle(&mut rng);
}

/// The indices `0..n` in order.
pub open spec fn index_range(n: nat) -> Seq<usize> {
    Seq::new(n, |i: int| i as usize)
}

/// The keyed order of the candidate indices.
pub open spec fn spec_block_order(width: int, height: int, key: Seq<u8>) -> Seq<usize> {
    chacha20_shuffle(
        spec_block_seed(key, width, height),
        index_range(candidate_count(width, height) as nat),
    )
}

/// The candidate blocks in keyed order.
pub open spec fn spec_keyed_blocks(width: int, height: int, key: Seq<u8>) -> Seq<BlockRef> {
    spec_block_order(width, height, key).map_values(|j: usize| spec_candidate_blocks(width, height)[j as int])
}

/// The blocks are an arrangement of all candidate blocks: each lies in its quadrant,
/// no two overlap, and every candidate block occurs.
pub open spec fn is_block_arrangement(blocks: Seq<BlockRef>, width: int, height: int) -> bool {
    &&& blocks.len() == candidate_count(width, height)
    &&& forall|i: int| 0 <= i < blocks.len() ==> block_in_quadrant(#[trigger] blocks[i], width, height)
    &&& forall|i: int, j: int|
        0 <= i < blocks.len() && 0 <= j < blocks.len() && i != j ==> blocks_disjoint(
            #[trigger] blocks[i],
            #[trigger] blocks[j],
        )
    &&& forall|c: int|
        0 <= c < candidate_count(width, height) ==> blocks.contains(
            #[trigger] spec_candidate_blocks(width, height)[c],
        )
}

/// The candidate blocks shuffled by a seed derived (SHA-256) from the key and the plane
/// size. Indices `0..n` are shuffled and then mapped to the candidates, which leaves the
/// candidates in the order that shuffling them directly would, since the shuffle's swaps
/// do not depend on the values swapped.
pub fn keyed_blocks(width: usize, height: usize, key: &[u8]) -> (blocks: Vec<BlockRef>)
    ensures
        blocks@ == spec_keyed_blocks(width as int, height as int, key@),
        is_block_arrangement(blocks@, width as int, height as int),
{
    let candidates = candidate_blocks(width, height);
    let seed = derive_seed(key, width, height);
    let n = candidates.len();
    let mut order: Vec<usize> = Vec::with_capacity(n);
    let mut i: usize = 0;
    while i < n
        invariant
            i <= n,
            order@ =~= index_range(i as nat),
        decreases n - i,
    {
        order.push(i);
        i = i + 1;
    }
    let ghost ordered = order@;
    shuffle_with_seed(&mut order, seed);
    proof {
        broadcast use vstd::seq_lib::group_to_multiset_ensures;
        assert(ordered.no_duplicates());
        ordered.lemma_multiset_has_no_duplicates();
        order@.lemma_multiset_has_no_duplicates_conv();
        assert forall|k: int| 0 <= k < order@.len() implies #[trigger] order@[k] < n by {
            assert(order@.contains(order@[k]));
            assert(order@.to_multiset().count(order@[k]) > 0);
            assert(ordered.to_multiset().count(order@[k]) > 0);
            assert(ordered.contains(order@[k]));
        }
        lemma_candidate_blocks_layout(width as int, height as int);
    }
    let mut blocks: Vec<BlockRef> = Vec::with_capacity(n);
    let mut k: usize = 0;
    while k < n
        invariant
            k <= n,
            n == candidates@.len(),
            order@.len() == n,
            forall|j: int| 0 <= j < order@.len() ==> #[trigger] order@[j] < n,
            blocks@ =~= order@.take(k as int).map_values(|j: usize| candidates@[j as int]),
        decreases n - k,
    {
        blocks.push(candidates[order[k]]);
        k = k + 1;
    }
    proof {
        broadcast use vstd::seq_lib::group_to_multiset_ensures;
        assert(order@.take(n as int) =~= order@);
        let cands = spec_candidate_blocks(width as int, height as int);
        assert forall|c: int| 0 <= c < candidate_count(width as int, height as int) implies blocks@.contains(
            #[trigger] cands[c],
        ) by {
            assert(ordered[c] == c as usize);
            assert(ordered.contains(c as usize));
            assert(ordered.to_multiset().count(c as usize) > 0);
            assert(order@.to_multiset().count(c as usize) > 0);
            assert(order@.contains(c as usize));
            let k = choose|k: int| 0 <= k < order@.len() && order@[k] == c as usize;
            assert(blocks@[k] == cands[c]);
        }
        assert forall|a: int, b: int| 0 <= a < blocks@.len() && 0 <= b < blocks@.len() && a != b implies blocks_disjoint(
            #[trigger] blocks@[a],
            #[trigger] blocks@[b],
        ) by {
            assert(order@[a] != order@[b]);
            assert(cands[order@[a] as int] == blocks@[a]);
            assert(cands[order@[b] as int] == blocks@[b]);
        }
        assert forall|a: int| 0 <= a < blocks@.len() implies block_in_quadrant(
            #[trigger] blocks@[a],
            width as int,
            height as int,
        ) by {
            assert(cands[order@[a] as int] == blocks@[a]);
        }
    }
    blocks
}


/// Whether plane index `i` of a `width`-wide plane lies in the 8x8 block at `b`.
pub open spec fn index_in_block(i: int, width: int, b: BlockRef) -> bool {
    &&& b.y <= i / width < b.y + 8
    &&& b.x <= i % width < b.x + 8
}

/// The plane after writing `block` at `b`: the block's 64 cells take the block's values,
/// row `y`, column `x` going to index `(b.y + y) * width + b.x + x`; all else is kept.
pub open spec fn spec_write_block<T>(data: Seq<T>, width: int, b: BlockRef, block: [[T; 8]; 8]) -> Seq<T> {
    Seq::new(
        data.len(),
        |i: int|
            if index_in_block(i, width, b) {
                block[i / width - b.y][i % width - b.x]
            } else {
                data[i]
            },
    )
}

/// The block at `b` fits in a `width`-wide plane of `len` cells.
pub open spec fn block_fits(width: int, len: int, b: BlockRef) -> bool {
    &&& b.x + 8 <= width
    &&& (b.y + 8) * width <= len
}

proof fn lemma_block_index(width: int, b: BlockRef, y: int, x: int)
    requires
        0 <= y < 8,
        0 <= x < 8,
        b.x + 8 <= width,
    ensures
        ((b.y + y) * width + b.x + x) / width == b.y + y,
        ((b.y + y) * width + b.x + x) % width == b.x + x,
        (b.y + y) * width + b.x + x < (b.y + 8) * width,
        (b.y + y) * width <= (b.y + 8) * width,
        b.y + y <= (b.y + 8) * width,
        0 <= (b.y + y) * width + b.x + x,
{
    vstd::arithmetic::div_mod::lemma_fundamental_div_mod_converse(
        (b.y + y) * width + b.x + x,
        width,
        b.y + y,
        b.x + x,
    );
    assert((b.y + y) * width + width <= (b.y + 8) * width) by (nonlinear_arith)
        requires
            y < 8,
            width > 0,
    ;
    assert((b.y + y) * width >= 0) by (nonlinear_arith)
        requires
            b.y + y >= 0,
            width > 0,
    ;
    assert(b.y + y <= (b.y + y) * width) by (nonlinear_arith)
        requires
            b.y + y >= 0,
            width > 0,
    ;
}

/// Copies the 8x8 block at `block_ref` out of a `width`-wide plane, row by row.
pub fn read_block<T: Copy>(data: &[T], width: usize, block_ref: BlockRef) -> (block: [[T; 8]; 8])
    requires
        block_fits(width as int, data@.len() as int, block_ref),
    ensures
        forall|y: int, x: int|
            0 <= y < 8 && 0 <= x < 8 ==> #[trigger] block[y][x] == data@[(block_ref.y + y) * width + block_ref.x + x],
{
    let len = data.len();
    proof {
        lemma_block_index(width as int, block_ref, 0, 0);
    }
    let first = data[block_ref.y * width + block_ref.x];
    let mut block: [[T; 8]; 8] = [[first; 8]; 8];
    let mut y: usize = 0;
    while y < BLOCK
        invariant
            y <= 8,
            len == data@.len(),
            block_fits(width as int, data@.len() as int, block_ref),
            forall|yy: int, x: int|
                0 <= yy < y && 0 <= x < 8 ==> #[trigger] block[yy][x] == data@[(block_ref.y + yy) * width + block_ref.x + x],
        decreases 8 - y,
    {
        let mut row: [T; 8] = block[y];
        let mut x: usize = 0;
        while x < BLOCK
            invariant
                y < 8,
                x <= 8,
                len == data@.len(),
                block_fits(width as int, data@.len() as int, block_ref),
                forall|xx: int| 0 <= xx < x ==> #[trigger] row[xx] == data@[(block_ref.y + y) * width + block_ref.x + xx],
            decreases 8 - x,
        {
            proof {
                lemma_block_index(width as int, block_ref, y as int, x as int);
            }
            row[x] = data[(block_ref.y + y) * width + block_ref.x + x];
            x = x + 1;
        }
        block[y] = row;
        y = y + 1;
    }
    block
}

/// Writes an 8x8 block into a `width`-wide plane at `block_ref`, row by row.
pub fn write_block<T: Copy>(data: &mut [T], width: usize, block_ref: BlockRef, block: [[T; 8]; 8])
    requires
        block_fits(width as int, old(data)@.len() as int, block_ref),
    ensures
        final(data)@ == spec_write_block(old(data)@, width as int, block_ref, block),
{
    let ghost original = data@;
    let len = data.len();
    let mut y: usize = 0;
    while y < BLOCK
        invariant
            y <= 8,
            len == original.len(),
            data@.len() == original.len(),
            block_fits(width as int, original.len() as int, block_ref),
            forall|i: int|
                0 <= i < data@.len() ==> #[trigger] data@[i] == if index_in_block(i, width as int, block_ref) && i
                    / (width as int) < block_ref.y + y {
                    block[i / (width as int) - block_ref.y][i % (width as int) - block_ref.x]
                } else {
                    original[i]
                },
        decreases 8 - y,
    {
        let mut x: usize = 0;
        while x < BLOCK
            invariant
                y < 8,
                x <= 8,
                len == original.len(),
                data@.len() == original.len(),
                block_fits(width as int, original.len() as int, block_ref),
                forall|i: int|
                    0 <= i < data@.len() ==> #[trigger] data@[i] == if index_in_block(i, width as int, block_ref) && (i
                        / (width as int) < block_ref.y + y || (i / (width as int) == block_ref.y + y && i % (
                    width as int) < block_ref.x + x)) {
                        block[i / (width as int) - block_ref.y][i % (width as int) - block_ref.x]
                    } else {
                        original[i]
                    },
            decreases 8 - x,
        {
            proof {
                lemma_block_index(width as int, block_ref, y as int, x as int);
            }
            let idx = (block_ref.y + y) * width + block_ref.x + x;
            proof {
                assert forall|i: int|
                    0 <= i < data@.len() && #[trigger] (i / (width as int)) == block_ref.y + y && i % (width as int)
                        == block_ref.x + x implies i == idx by {
                    vstd::arithmetic::div_mod::lemma_fundamental_div_mod(i, width as int);
                    assert((width as int) * (i / (width as int)) == (block_ref.y + y) * width) by (nonlinear_arith)
                        requires
                            i / (width as int) == block_ref.y + y,
                    ;
                }
            }
            data[idx] = block[y][x];
            x = x + 1;
        }
        y = y + 1;
    }
    proof {
        assert(data@ =~= spec_write_block(original, width as int, block_ref, block));
    }
}


/// A block in its detail quadrant of a `width` x `height` plane fits in the plane's
/// `width * height` cells.
pub proof fn lemma_quadrant_block_fits(b: BlockRef, width: int, height: int)
    requires
        width >= 0,
        height >= 0,
        block_in_quadrant(b, width, height),
    ensures
        block_fits(width, width * height, b),
{
    assert(b.y + 8 <= height);
    assert((b.y + 8) * width <= width * height) by (nonlinear_arith)
        requires
            b.y + 8 <= height,
            width >= 0,
    ;
}

/// Writing a block and reading it back gives the block; writing a block leaves every
/// cell of a block disjoint from it as it was.
pub proof fn lemma_write_block_cells<T>(data: Seq<T>, width: int, a: BlockRef, block: [[T; 8]; 8], b: BlockRef)
    requires
        block_fits(width, data.len() as int, a),
        block_fits(width, data.len() as int, b),
    ensures
        forall|y: int, x: int|
            0 <= y < 8 && 0 <= x < 8 ==> #[trigger] spec_write_block(data, width, a, block)[(a.y + y) * width + a.x
                + x] == block[y][x],
        blocks_disjoint(a, b) ==> forall|y: int, x: int|
            0 <= y < 8 && 0 <= x < 8 ==> #[trigger] spec_write_block(data, width, a, block)[(b.y + y) * width + b.x
                + x] == data[(b.y + y) * width + b.x + x],
{
    assert forall|y: int, x: int| 0 <= y < 8 && 0 <= x < 8 implies #[trigger] spec_write_block(
        data,
        width,
        a,
        block,
    )[(a.y + y) * width + a.x + x] == block[y][x] by {
        lemma_block_index(width, a, y, x);
    }
    if blocks_disjoint(a, b) {
        assert forall|y: int, x: int| 0 <= y < 8 && 0 <= x < 8 implies #[trigger] spec_write_block(
            data,
            width,
            a,
            block,
        )[(b.y + y) * width + b.x + x] == data[(b.y + y) * width + b.x + x] by {
            lemma_block_index(width, b, y, x);
        }
    }
}


/// The plane after writing `blocks[k]` at `at[k]` for every `k < n`, in order.
pub open spec fn spec_write_blocks<T>(data: Seq<T>, width: int, at: Seq<BlockRef>, blocks: Seq<[[T; 8]; 8]>, n: int) -> Seq<T>
    decreases n,
{
    if n <= 0 {
        data
    } else {
        spec_write_block(spec_write_blocks(data, width, at, blocks, n - 1), width, at[n - 1], blocks[n - 1])
    }
}

/// Writing blocks at pairwise disjoint places, one after another, loses none of them:
/// afterwards every place holds the block written there.
pub proof fn lemma_disjoint_writes_all_kept<T>(
    data: Seq<T>,
    width: int,
    at: Seq<BlockRef>,
    blocks: Seq<[[T; 8]; 8]>,
    n: int,
)
    requires
        0 <= n <= at.len(),
        n <= blocks.len(),
        forall|k: int| 0 <= k < n ==> block_fits(width, data.len() as int, #[trigger] at[k]),
        forall|k: int, l: int| 0 <= k < n && 0 <= l < n && k != l ==> blocks_disjoint(#[trigger] at[k], #[trigger] at[l]),
    ensures
        spec_write_blocks(data, width, at, blocks, n).len() == data.len(),
        forall|k: int, y: int, x: int|
            0 <= k < n && 0 <= y < 8 && 0 <= x < 8 ==> #[trigger] spec_write_blocks(data, width, at, blocks, n)[(at[k].y
                + y) * width + at[k].x + x] == blocks[k][y][x],
    decreases n,
{
    if n > 0 {
        lemma_disjoint_writes_all_kept(data, width, at, blocks, n - 1);
        let before = spec_write_blocks(data, width, at, blocks, n - 1);
        assert forall|k: int, y: int, x: int|
            0 <= k < n && 0 <= y < 8 && 0 <= x < 8 implies #[trigger] spec_write_blocks(
            data,
            width,
            at,
            blocks,
            n,
        )[(at[k].y + y) * width + at[k].x + x] == blocks[k][y][x] by {
            lemma_write_block_cells(before, width, at[n - 1], blocks[n - 1], at[k]);
            if k < n - 1 {
                assert(blocks_disjoint(at[n - 1], at[k]));
                assert(before[(at[k].y + y) * width + at[k].x + x] == blocks[k][y][x]);
            }
        }
    }
}

} // verus!
