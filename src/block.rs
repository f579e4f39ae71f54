use vstd::arithmetic::div_mod::{lemma_div_denominator, lemma_fundamental_div_mod_converse};
use vstd::arithmetic::power2::{lemma2_to64, lemma_pow2_pos, lemma_pow2_strictly_increases, lemma_pow2_unfold, pow2};
use vstd::prelude::*;

use crate::matcher::find_closest;

verus! {

/// Why an index buffer could not be cut into blocks.
#[derive(Clone, Copy, Debug, PartialEq, Eq, Structural)]
pub enum BlockError {
    /// The buffer (or the image width) is not a multiple of the block length.
    InvalidBlockLength,
}

/// Number of pixels in a block.
pub const BLOCK_LEN: usize = 8;

/// Perceptual distances between the 16 render colours, as ordered keys:
/// `keys[16 * i + j]` is the distance from colour `i` to colour `j`, and a
/// smaller key is a smaller distance.
pub struct DistanceTable {
    pub keys: Vec<u32>,
}

impl DistanceTable {
    pub open spec fn wf(&self) -> bool {
        self.keys@.len() == 256
    }
}

/// The distance key from colour `from` to colour `to`.
pub open spec fn dist(keys: Seq<u32>, from: int, to: int) -> u32 {
    keys[from * 16 + to]
}

/// A reduced block: a pair of palette indices and the mask that picks one of
/// them for each pixel, most significant bit first.
#[derive(Clone, Copy, Debug, PartialEq, Eq, Structural)]
pub struct Chunk {
    pub fg: u8,
    pub bg: u8,
    pub codepoint: u8,
}

/// How often the index `v` occurs in `s`.
pub open spec fn count(s: Seq<u8>, v: int) -> nat
    decreases s.len(),
{
    if s.len() == 0 {
        0
    } else {
        count(s.drop_last(), v) + if s.last() == v { 1nat } else { 0nat }
    }
}

/// Index `i` ranks before index `j` in `s`: it occurs more often, or as often
/// and is the lower index.
pub open spec fn ranks_above(s: Seq<u8>, i: int, j: int) -> bool {
    count(s, i) > count(s, j) || (count(s, i) == count(s, j) && i < j)
}

/// `bg` is the most frequent index of the block, the lowest of equals.
pub open spec fn is_bg(s: Seq<u8>, bg: u8) -> bool {
    &&& bg < 16
    &&& forall|j: int| 0 <= j < 16 && j != bg ==> #[trigger] ranks_above(s, bg as int, j)
}

/// `fg` is the most frequent index after `bg`, the lowest of equals; where no
/// other index occurs it is index 0.
pub open spec fn is_fg(s: Seq<u8>, bg: u8, fg: u8) -> bool {
    if exists|j: int| 0 <= j < 16 && j != bg && #[trigger] count(s, j) > 0 {
        &&& fg < 16
        &&& fg != bg
        &&& forall|j: int|
            0 <= j < 16 && j != bg && j != fg ==> #[trigger] ranks_above(s, fg as int, j)
    } else {
        fg == 0
    }
}

/// A pixel after reduction: kept where it is `bg` or `fg`, else the nearer of the
/// two, `bg` on a tie.
pub open spec fn reduce_pixel(keys: Seq<u32>, p: u8, bg: u8, fg: u8) -> u8 {
    if p == bg || p == fg {
        p
    } else if dist(keys, p as int, fg as int) < dist(keys, p as int, bg as int) {
        fg
    } else {
        bg
    }
}

pub open spec fn reduced_block(keys: Seq<u32>, s: Seq<u8>, bg: u8, fg: u8) -> Seq<u8> {
    Seq::new(s.len(), |i: int| reduce_pixel(keys, s[i], bg, fg))
}

/// The mask of a block: one bit per pixel, 0 for `bg` and 1 otherwise, the
/// first pixel in the most significant place.
pub open spec fn mask(s: Seq<u8>, bg: u8) -> nat
    decreases s.len(),
{
    if s.len() == 0 {
        0
    } else {
        mask(s.drop_last(), bg) * 2 + if s.last() == bg { 0nat } else { 1nat }
    }
}

/// Block `k` of a buffer.
pub open spec fn block_of(s: Seq<u8>, k: int) -> Seq<u8> {
    s.subrange(8 * k, 8 * k + 8)
}

/// `c` and `reduced` are what the block `s` reduces to.
pub open spec fn reduces_to(keys: Seq<u32>, s: Seq<u8>, c: Chunk, reduced: Seq<u8>) -> bool {
    &&& is_bg(s, c.bg)
    &&& is_fg(s, c.bg, c.fg)
    &&& reduced == reduced_block(keys, s, c.bg, c.fg)
    &&& c.codepoint == mask(reduced, c.bg)
}

fn count_in(indexes: &Vec<u8>, start: usize, v: u8) -> (n: u8)
    requires
        start + 8 <= indexes@.len(),
    ensures
        n == count(indexes@.subrange(start as int, start + 8), v as int),
{
    let len = indexes.len();
    let mut n: u8 = 0;
    let mut i: usize = 0;
    while i < BLOCK_LEN
        invariant
            i <= 8,
            len == indexes@.len(),
            start + 8 <= indexes@.len(),
            n <= i,
            n == count(indexes@.subrange(start as int, start + i), v as int),
        decreases 8 - i,
    {
        assert(indexes@.subrange(start as int, start + i + 1).drop_last() =~= indexes@.subrange(
            start as int,
            start + i,
        ));
        if indexes[start + i] == v {
            n = n + 1;
        }
        i = i + 1;
    }
    n
}

/// The two dominant indices of the block that starts at `start`.
fn dominant_pair(indexes: &Vec<u8>, start: usize) -> (r: (u8, u8))
    requires
        start + 8 <= indexes@.len(),
    ensures
        is_bg(indexes@.subrange(start as int, start + 8), r.0),
        is_fg(indexes@.subrange(start as int, start + 8), r.0, r.1),
{
    let ghost s = indexes@.subrange(start as int, start + 8);
    let mut bg: u8 = 0;
    let mut bg_count: u8 = count_in(indexes, start, 0);
    let mut c: u8 = 1;
    while c < 16
        invariant
            1 <= c <= 16,
            start + 8 <= indexes@.len(),
            s == indexes@.subrange(start as int, start + 8),
            bg < c,
            bg_count == count(s, bg as int),
            forall|j: int| 0 <= j < c && j != bg ==> #[trigger] ranks_above(s, bg as int, j),
        decreases 16 - c,
    {
        let n = count_in(indexes, start, c);
        if n > bg_count {
            assert forall|j: int| 0 <= j < c + 1 && j != c implies #[trigger] ranks_above(
                s,
                c as int,
                j,
            ) by {
                if j != bg {
                    assert(ranks_above(s, bg as int, j));
                }
            }
            bg = c;
            bg_count = n;
        }
        c = c + 1;
    }
    let mut fg: u8 = 0;
    let mut fg_count: u8 = 0;
    let mut c: u8 = 0;
    while c < 16
        invariant
            c <= 16,
            start + 8 <= indexes@.len(),
            s == indexes@.subrange(start as int, start + 8),
            bg < 16,
            fg_count > 0 ==> {
                &&& fg < c
                &&& fg != bg
                &&& fg_count == count(s, fg as int)
                &&& forall|j: int|
                    0 <= j < c && j != bg && j != fg ==> #[trigger] ranks_above(s, fg as int, j)
            },
            fg_count == 0 ==> fg == 0 && forall|j: int|
                0 <= j < c && j != bg ==> #[trigger] count(s, j) == 0,
        decreases 16 - c,
    {
        if c != bg {
            let n = count_in(indexes, start, c);
            if n > fg_count {
                assert forall|j: int| 0 <= j < c + 1 && j != bg && j != c implies #[trigger] ranks_above(
                    s,
                    c as int,
                    j,
                ) by {
                    if fg_count > 0 && j != fg {
                        assert(ranks_above(s, fg as int, j));
                    }
                    if fg_count == 0 {
                        assert(count(s, j) == 0);
                    }
                }
                fg = c;
                fg_count = n;
            }
        }
        c = c + 1;
    }
    (bg, fg)
}

/// Reduces the block that starts at `start` in place and returns its chunk.
fn reduce_block_at(table: &DistanceTable, indexes: &mut Vec<u8>, start: usize) -> (c: Chunk)
    requires
        table.wf(),
        start + 8 <= old(indexes)@.len(),
        forall|j: int| start <= j < start + 8 ==> #[trigger] old(indexes)@[j] < 16,
    ensures
        final(indexes)@.len() == old(indexes)@.len(),
        forall|j: int|
            0 <= j < old(indexes)@.len() && !(start <= j < start + 8)
                ==> #[trigger] final(indexes)@[j] == old(indexes)@[j],
        reduces_to(
            table.keys@,
            old(indexes)@.subrange(start as int, start + 8),
            c,
            final(indexes)@.subrange(start as int, start + 8),
        ),
{
    let ghost orig = indexes@;
    let ghost keys = table.keys@;
    let len = indexes.len();
    let (bg, fg) = dominant_pair(indexes, start);
    let mut i: usize = 0;
    while i < BLOCK_LEN
        invariant
            i <= 8,
            len == indexes@.len(),
            table.wf(),
            keys == table.keys@,
            start + 8 <= orig.len(),
            indexes@.len() == orig.len(),
            bg < 16,
            fg < 16,
            forall|j: int| start <= j < start + 8 ==> #[trigger] orig[j] < 16,
            forall|j: int|
                0 <= j < orig.len() && !(start <= j < start + i) ==> #[trigger] indexes@[j]
                    == orig[j],
            forall|j: int|
                start <= j < start + i ==> #[trigger] indexes@[j] == reduce_pixel(
                    keys,
                    orig[j],
                    bg,
                    fg,
                ),
        decreases 8 - i,
    {
        let p = indexes[start + i];
        if p != bg && p != fg {
            let to_bg = table.keys[p as usize * 16 + bg as usize];
            let to_fg = table.keys[p as usize * 16 + fg as usize];
            let candidates: Vec<u32> = vec![to_bg, to_fg];
            let slice = candidates.as_slice();
            assert(slice@ == candidates@);
            let choice = match find_closest(slice) {
                Ok(k) => k,
                Err(_) => 0,
            };
            assert(slice@[0] == to_bg && slice@[1] == to_fg);
            assert(choice == 0 ==> to_bg <= to_fg);
            assert(choice == 1 ==> to_fg < to_bg);
            let q = if choice == 0 {
                bg
            } else {
                fg
            };
            indexes.set(start + i, q);
        }
        assert(indexes@[start + i] == reduce_pixel(keys, orig[start + i], bg, fg));
        i = i + 1;
    }
    proof {
        lemma2_to64();
    }
    let mut cp: u8 = 0;
    let mut i: usize = 0;
    while i < BLOCK_LEN
        invariant
            i <= 8,
            len == indexes@.len(),
            start + 8 <= indexes@.len(),
            cp as nat == mask(indexes@.subrange(start as int, start + i), bg),
            mask(indexes@.subrange(start as int, start + i), bg) < pow2(i as nat),
        decreases 8 - i,
    {
        let ghost prev = indexes@.subrange(start as int, start + i);
        let ghost next = indexes@.subrange(start as int, start + i + 1);
        assert(next.drop_last() =~= prev);
        proof {
            lemma_pow2_unfold((i + 1) as nat);
            lemma2_to64();
            if i < 7 {
                lemma_pow2_strictly_increases(i as nat, 7);
            }
        }
        let bit: u8 = if indexes[start + i] == bg {
            0
        } else {
            1
        };
        cp = cp * 2 + bit;
        i = i + 1;
    }
    assert(indexes@.subrange(start as int, start + 8) =~= reduced_block(
        keys,
        orig.subrange(start as int, start + 8),
        bg,
        fg,
    ));
    Chunk { fg, bg, codepoint: cp }
}

/// Cuts the index buffer into blocks of 8, reduces each block to its two
/// dominant indices in place, and returns one chunk per block together with the
/// reduced buffer.
pub fn break_into_chunks(table: &DistanceTable, indexes: Vec<u8>) -> (r: Result<
    (Vec<Chunk>, Vec<u8>),
    BlockError,
>)
    requires
        table.wf(),
        forall|j: int| 0 <= j < indexes@.len() ==> #[trigger] indexes@[j] < 16,
    ensures
        r is Err <==> indexes@.len() % 8 != 0,
        r is Err ==> r->Err_0 == BlockError::InvalidBlockLength,
        r is Ok ==> {
            let (chunks, reduced) = r->Ok_0;
            &&& chunks@.len() * 8 == indexes@.len()
            &&& reduced@.len() == indexes@.len()
            &&& forall|k: int|
                0 <= k < chunks@.len() ==> reduces_to(
                    table.keys@,
                    block_of(indexes@, k),
                    #[trigger] chunks@[k],
                    block_of(reduced@, k),
                )
        },
{
    let len = indexes.len();
    if len % BLOCK_LEN != 0 {
        return Err(BlockError::InvalidBlockLength);
    }
    let ghost orig = indexes@;
    let mut indexes = indexes;
    let mut chunks: Vec<Chunk> = Vec::new();
    let mut start: usize = 0;
    while start < len
        invariant
            table.wf(),
            len == orig.len(),
            len % 8 == 0,
            start % 8 == 0,
            start <= len,
            indexes@.len() == len,
            chunks@.len() * 8 == start,
            forall|j: int| 0 <= j < len ==> #[trigger] orig[j] < 16,
            forall|j: int| start <= j < len ==> #[trigger] indexes@[j] == orig[j],
            forall|k: int|
                0 <= k < chunks@.len() ==> reduces_to(
                    table.keys@,
                    block_of(orig, k),
                    #[trigger] chunks@[k],
                    block_of(indexes@, k),
                ),
        decreases len - start,
    {
        let ghost before = indexes@;
        let ghost done = chunks@;
        let c = reduce_block_at(table, &mut indexes, start);
        chunks.push(c);
        proof {
            let n = done.len() as int;
            assert(before.subrange(start as int, start + 8) =~= block_of(orig, n));
            assert(indexes@.subrange(start as int, start + 8) =~= block_of(indexes@, n));
            assert forall|k: int| 0 <= k < chunks@.len() implies reduces_to(
                table.keys@,
                block_of(orig, k),
                #[trigger] chunks@[k],
                block_of(indexes@, k),
            ) by {
                if k < n {
                    assert(block_of(indexes@, k) =~= block_of(before, k));
                    assert(chunks@[k] == done[k]);
                }
            }
        }
        start = start + BLOCK_LEN;
    }
    Ok((chunks, indexes))
}

/// After reduction every pixel of a block is its `bg` or its `fg` index.
pub proof fn lemma_reduced_two_colors(keys: Seq<u32>, s: Seq<u8>, c: Chunk, reduced: Seq<u8>)
    requires
        reduces_to(keys, s, c, reduced),
    ensures
        forall|i: int| 0 <= i < reduced.len() ==> #[trigger] reduced[i] == c.bg || reduced[i] == c.fg,
{
}

proof fn lemma_mask_bits(s: Seq<u8>, bg: u8)
    ensures
        forall|i: int|
            0 <= i < s.len() ==> (mask(s, bg) / pow2((s.len() - 1 - i) as nat)) % 2 == (if #[trigger] s[i]
                == bg {
                0int
            } else {
                1int
            }),
    decreases s.len(),
{
    if s.len() > 0 {
        let t = s.drop_last();
        let b: int = if s.last() == bg { 0 } else { 1 };
        lemma_mask_bits(t, bg);
        assert forall|i: int| 0 <= i < s.len() implies (mask(s, bg) / pow2(
            (s.len() - 1 - i) as nat,
        )) % 2 == (if #[trigger] s[i] == bg {
            0int
        } else {
            1int
        }) by {
            let m = mask(t, bg) as int;
            assert(mask(s, bg) == m * 2 + b);
            if i == s.len() - 1 {
                lemma2_to64();
                lemma_fundamental_div_mod_converse(m * 2 + b, 2, m, b);
                assert(s[i] == s.last());
                assert((s.len() - 1 - i) as nat == 0);
                assert(pow2(0) == 1);
                assert((m * 2 + b) % 2 == b);
                assert(mask(s, bg) / pow2((s.len() - 1 - i) as nat) == m * 2 + b);
            } else {
                let e = (s.len() - 2 - i) as nat;
                lemma_pow2_unfold(e + 1);
                lemma_pow2_pos(e);
                lemma_div_denominator(m * 2 + b, 2, pow2(e) as int);
                lemma_fundamental_div_mod_converse(m * 2 + b, 2, m, b);
                assert((s.len() - 1 - i) as nat == e + 1);
                assert((m * 2 + b) / 2 == m);
                assert((m * 2 + b) / (pow2(e + 1) as int) == m / (pow2(e) as int));
                assert(t[i] == s[i]);
                assert((t.len() - 1 - i) as nat == e);
                assert((mask(t, bg) / pow2(e)) % 2 == (if t[i] == bg {
                    0int
                } else {
                    1int
                }));
                assert(mask(s, bg) / pow2((s.len() - 1 - i) as nat) == mask(t, bg) / pow2(e));
            }
        }
    }
}

/// Bit `i` of a block's codepoint, counted from the most significant bit, is
/// set exactly when pixel `i` of the reduced block is the `fg` index (where the
/// two indices differ).
pub proof fn lemma_codepoint_bits(keys: Seq<u32>, s: Seq<u8>, c: Chunk, reduced: Seq<u8>)
    requires
        s.len() == 8,
        reduces_to(keys, s, c, reduced),
        c.bg != c.fg,
    ensures
        forall|i: int|
            0 <= i < 8 ==> ((c.codepoint as nat / pow2((7 - i) as nat)) % 2 == 1
                <==> #[trigger] reduced[i] == c.fg),
{
    lemma_mask_bits(reduced, c.bg);
    assert forall|i: int| 0 <= i < 8 implies ((c.codepoint as nat / pow2((7 - i) as nat)) % 2 == 1
        <==> #[trigger] reduced[i] == c.fg) by {
        assert(reduced[i] == c.bg || reduced[i] == c.fg);
    }
}

} // verus!
