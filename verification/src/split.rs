//! Cutting a filtered scanline stream into row-aligned blocks.
//!
//! With `rows = len / row_stride` whole rows and `n` blocks wanted, every
//! block takes `per = ceil(rows / n)` rows, the last one what is left. Block
//! `j` covers the bytes `[j * per * stride, (j + 1) * per * stride)`, the last
//! block ending after the last whole row. When that leaves a last block
//! shorter than `PAR_MIN_BLOCK` bytes behind another block, the two are
//! merged, so that with the block count of `block_count` no block is smaller
//! than a full-size one.

use vstd::prelude::*;
use crate::pardeflate::{block_count_spec, lemma_block_count_bounds, PAR_MIN_BLOCK};
use vstd::arithmetic::div_mod::{lemma_fundamental_div_mod, lemma_mod_multiples_basic};
use vstd::arithmetic::mul::{
    lemma_mul_inequality,
    lemma_mul_is_associative,
    lemma_mul_is_commutative,
    lemma_mul_is_distributive_add,
    lemma_mul_strict_inequality_converse,
};

verus! {

/// `a / b` rounded up, for `b > 0`.
pub open spec fn ceil_div(a: int, b: int) -> int {
    a / b + if a % b == 0 {
        0int
    } else {
        1int
    }
}

/// The number of whole rows in `len` bytes.
pub open spec fn plan_rows(len: int, stride: int) -> int {
    len / stride
}

/// Rows per block: the rows shared out over `nblocks` blocks, rounded up.
pub open spec fn plan_rows_per_block(len: int, stride: int, nblocks: int) -> int {
    ceil_div(plan_rows(len, stride), nblocks)
}

/// How many blocks the rows actually fill.
pub open spec fn raw_plan_len(len: int, stride: int, nblocks: int) -> int {
    if plan_rows(len, stride) == 0 {
        0
    } else {
        ceil_div(plan_rows(len, stride), plan_rows_per_block(len, stride, nblocks))
    }
}

/// First byte of block `j`.
pub open spec fn plan_start(len: int, stride: int, nblocks: int, j: int) -> int {
    j * plan_rows_per_block(len, stride, nblocks) * stride
}

/// One past the last byte of block `j`.
pub open spec fn raw_plan_end(len: int, stride: int, nblocks: int, j: int) -> int {
    let e = (j + 1) * plan_rows_per_block(len, stride, nblocks);
    (if e < plan_rows(len, stride) {
        e
    } else {
        plan_rows(len, stride)
    }) * stride
}

/// `r` holds the even cut before any merge: one `(start, end)` pair per
/// block of `rows_per_block` rows, the last one holding what is left.
pub open spec fn is_raw_block_plan(r: Seq<(usize, usize)>, len: int, stride: int, nblocks: int) -> bool {
    &&& r.len() == raw_plan_len(len, stride, nblocks)
    &&& forall|j: int|
        0 <= j < r.len() ==> #[trigger] r[j].0 == plan_start(len, stride, nblocks, j) && r[j].1
            == raw_plan_end(len, stride, nblocks, j)
}

/// The even cut leaves a last block shorter than `PAR_MIN_BLOCK` bytes
/// behind at least one other block.
pub open spec fn plan_short_tail(len: int, stride: int, nblocks: int) -> bool {
    &&& raw_plan_len(len, stride, nblocks) >= 2
    &&& (plan_rows(len, stride) - (raw_plan_len(len, stride, nblocks) - 1) * plan_rows_per_block(
        len,
        stride,
        nblocks,
    )) * stride < PAR_MIN_BLOCK
}

/// How many blocks there are: those of the even cut, less one when a short
/// last block is merged into the block before it.
pub open spec fn plan_len(len: int, stride: int, nblocks: int) -> int {
    if plan_short_tail(len, stride, nblocks) {
        raw_plan_len(len, stride, nblocks) - 1
    } else {
        raw_plan_len(len, stride, nblocks)
    }
}

/// One past the last byte of block `j`: the start of the next block, or the
/// end of the last whole row for the last block.
pub open spec fn plan_end(len: int, stride: int, nblocks: int, j: int) -> int {
    (if j + 1 < plan_len(len, stride, nblocks) {
        (j + 1) * plan_rows_per_block(len, stride, nblocks)
    } else {
        plan_rows(len, stride)
    }) * stride
}

/// `r` is the split of `len` bytes of `stride`-byte rows into (at most)
/// `nblocks` blocks: one `(start, end)` pair per block, in order.
pub open spec fn is_block_plan(r: Seq<(usize, usize)>, len: int, stride: int, nblocks: int) -> bool {
    &&& r.len() == plan_len(len, stride, nblocks)
    &&& forall|j: int|
        0 <= j < r.len() ==> #[trigger] r[j].0 == plan_start(len, stride, nblocks, j) && r[j].1
            == plan_end(len, stride, nblocks, j)
}

/// `ceil_div(a, b)` is the least `k` with `k * b >= a`.
pub proof fn lemma_ceil_div(a: int, b: int)
    requires
        a >= 0,
        b > 0,
    ensures
        ceil_div(a, b) >= 0,
        ceil_div(a, b) * b >= a,
        a > 0 ==> ceil_div(a, b) >= 1 && (ceil_div(a, b) - 1) * b < a,
        ceil_div(a, b) <= a,
{
    lemma_fundamental_div_mod(a, b);
    let q = a / b;
    let m = a % b;
    assert(a == b * q + m);
    assert(0 <= m < b);
    lemma_mul_is_commutative(b, q);
    assert(q >= 0) by (nonlinear_arith)
        requires a == q * b + m, 0 <= m < b, a >= 0, b > 0;
    if m == 0 {
        assert(ceil_div(a, b) == q);
        if a > 0 {
            assert(q >= 1) by (nonlinear_arith)
                requires a == q * b, a > 0, q >= 0;
            assert((q - 1) * b < a) by (nonlinear_arith)
                requires a == q * b, b > 0;
        }
    } else {
        assert(ceil_div(a, b) == q + 1);
        assert((q + 1) * b >= a) by (nonlinear_arith)
            requires a == q * b + m, m < b;
        assert(q * b < a);
    }
    if a > 0 {
        assert(ceil_div(a, b) <= a) by (nonlinear_arith)
            requires ceil_div(a, b) >= 1, (ceil_div(a, b) - 1) * b < a, b >= 1;
    }
}

/// A `k` with `k * b >= a > (k - 1) * b` is `ceil_div(a, b)`.
pub proof fn lemma_ceil_div_unique(a: int, b: int, k: int)
    requires
        a > 0,
        b > 0,
        k * b >= a,
        (k - 1) * b < a,
    ensures
        k == ceil_div(a, b),
{
    let c = ceil_div(a, b);
    lemma_ceil_div(a, b);
    if k < c {
        assert(k <= c - 1);
        lemma_mul_inequality(k, c - 1, b);
    } else if k > c {
        assert(c <= k - 1);
        lemma_mul_inequality(c, k - 1, b);
    }
}

/// Facts about the rows per block and the block count when there are rows.
proof fn lemma_plan_shape(len: int, stride: int, nblocks: int)
    requires
        len >= 0,
        stride > 0,
        nblocks > 0,
        plan_rows(len, stride) > 0,
    ensures
        plan_rows(len, stride) >= 0,
        plan_rows_per_block(len, stride, nblocks) >= 1,
        plan_rows_per_block(len, stride, nblocks) * nblocks >= plan_rows(len, stride),
        raw_plan_len(len, stride, nblocks) >= 1,
        raw_plan_len(len, stride, nblocks) * plan_rows_per_block(len, stride, nblocks) >= plan_rows(
            len,
            stride,
        ),
        (raw_plan_len(len, stride, nblocks) - 1) * plan_rows_per_block(len, stride, nblocks)
            < plan_rows(len, stride),
{
    let rows = plan_rows(len, stride);
    lemma_ceil_div(rows, nblocks);
    lemma_ceil_div(rows, plan_rows_per_block(len, stride, nblocks));
}

/// The blocks tile the whole rows of the input: the first starts at 0, each
/// ends where the next starts, the last ends after the last whole row (at the
/// end of the input when the row size divides it), none is empty, every bound
/// falls on a row boundary, and there are no more blocks than asked for (at
/// least one when there is a whole row).
proof fn lemma_raw_plan_tiles(len: int, stride: int, nblocks: int)
    requires
        len >= 0,
        stride > 0,
        nblocks > 0,
    ensures
        0 <= raw_plan_len(len, stride, nblocks) <= nblocks,
        len >= stride ==> raw_plan_len(len, stride, nblocks) >= 1,
        raw_plan_len(len, stride, nblocks) > 0 ==> plan_start(len, stride, nblocks, 0) == 0,
        raw_plan_len(len, stride, nblocks) > 0 ==> raw_plan_end(
            len,
            stride,
            nblocks,
            raw_plan_len(len, stride, nblocks) - 1,
        ) == plan_rows(len, stride) * stride,
        len % stride == 0 ==> plan_rows(len, stride) * stride == len,
        plan_rows(len, stride) * stride <= len,
        forall|j: int|
            0 <= j < raw_plan_len(len, stride, nblocks) ==> #[trigger] raw_plan_end(len, stride, nblocks, j)
                <= plan_rows(len, stride) * stride,
        forall|j: int|
            0 <= j < raw_plan_len(len, stride, nblocks) ==> #[trigger] plan_start(len, stride, nblocks, j)
                < raw_plan_end(len, stride, nblocks, j),
        forall|j: int|
            0 <= j < raw_plan_len(len, stride, nblocks) - 1 ==> #[trigger] raw_plan_end(
                len,
                stride,
                nblocks,
                j,
            ) == plan_start(len, stride, nblocks, j + 1),
        forall|j: int|
            0 <= j < raw_plan_len(len, stride, nblocks) ==> #[trigger] plan_start(len, stride, nblocks, j)
                % stride == 0 && raw_plan_end(len, stride, nblocks, j) % stride == 0,
{
    let rows = plan_rows(len, stride);
    let rp = plan_rows_per_block(len, stride, nblocks);
    let k = raw_plan_len(len, stride, nblocks);
    lemma_fundamental_div_mod(len, stride);
    assert(rows >= 0) by (nonlinear_arith)
        requires rows == len / stride, len >= 0, stride > 0;
    lemma_mul_is_commutative(stride, rows);
    assert(rows * stride <= len);
    if len >= stride {
        assert(rows >= 1) by (nonlinear_arith)
            requires rows == len / stride, len >= stride, stride > 0;
    }
    if rows > 0 {
        lemma_plan_shape(len, stride, nblocks);
        if k > nblocks {
            lemma_mul_inequality(nblocks, k - 1, rp);
            lemma_mul_is_commutative(nblocks, rp);
        }
        assert forall|j: int| 0 <= j < k implies #[trigger] plan_start(len, stride, nblocks, j)
            < raw_plan_end(len, stride, nblocks, j) by {
            lemma_mul_inequality(j, k - 1, rp);
            lemma_mul_is_distributive_add(rp, j, 1);
            lemma_mul_is_commutative(rp, j);
            lemma_mul_is_commutative(rp, j + 1);
            let e = (j + 1) * rp;
            let top = if e < rows {
                e
            } else {
                rows
            };
            assert(j * rp < top);
            assert(j * rp * stride < top * stride) by (nonlinear_arith)
                requires j * rp < top, stride > 0;
        }
        assert forall|j: int| 0 <= j < k implies #[trigger] raw_plan_end(len, stride, nblocks, j)
            <= rows * stride by {
            let e = (j + 1) * rp;
            let top = if e < rows {
                e
            } else {
                rows
            };
            lemma_mul_inequality(top, rows, stride);
        }
        assert forall|j: int| 0 <= j < k - 1 implies #[trigger] raw_plan_end(len, stride, nblocks, j)
            == plan_start(len, stride, nblocks, j + 1) by {
            lemma_mul_inequality(j + 1, k - 1, rp);
        }
        assert forall|j: int| 0 <= j < k implies #[trigger] plan_start(len, stride, nblocks, j)
            % stride == 0 && raw_plan_end(len, stride, nblocks, j) % stride == 0 by {
            lemma_mod_multiples_basic(j * rp, stride);
            let e = (j + 1) * rp;
            let top = if e < rows {
                e
            } else {
                rows
            };
            lemma_mod_multiples_basic(top, stride);
        }
        assert(plan_start(len, stride, nblocks, 0) == 0);
    }
}

/// The blocks tile the whole rows of the input: the first starts at 0, each
/// ends where the next starts, the last ends after the last whole row (at the
/// end of the input when the row size divides it), none is empty, every bound
/// falls on a row boundary, and there are no more blocks than asked for (at
/// least one when there is a whole row).
pub proof fn lemma_block_plan_tiles(len: int, stride: int, nblocks: int)
    requires
        len >= 0,
        stride > 0,
        nblocks > 0,
    ensures
        0 <= plan_len(len, stride, nblocks) <= nblocks,
        len >= stride ==> plan_len(len, stride, nblocks) >= 1,
        plan_len(len, stride, nblocks) > 0 ==> plan_start(len, stride, nblocks, 0) == 0,
        plan_len(len, stride, nblocks) > 0 ==> plan_end(
            len,
            stride,
            nblocks,
            plan_len(len, stride, nblocks) - 1,
        ) == plan_rows(len, stride) * stride,
        len % stride == 0 ==> plan_rows(len, stride) * stride == len,
        plan_rows(len, stride) * stride <= len,
        forall|j: int|
            0 <= j < plan_len(len, stride, nblocks) ==> #[trigger] plan_end(len, stride, nblocks, j)
                <= plan_rows(len, stride) * stride,
        forall|j: int|
            0 <= j < plan_len(len, stride, nblocks) ==> #[trigger] plan_start(len, stride, nblocks, j)
                < plan_end(len, stride, nblocks, j),
        forall|j: int|
            0 <= j < plan_len(len, stride, nblocks) - 1 ==> #[trigger] plan_end(
                len,
                stride,
                nblocks,
                j,
            ) == plan_start(len, stride, nblocks, j + 1),
        forall|j: int|
            0 <= j < plan_len(len, stride, nblocks) ==> #[trigger] plan_start(len, stride, nblocks, j)
                % stride == 0 && plan_end(len, stride, nblocks, j) % stride == 0,
{
    lemma_raw_plan_tiles(len, stride, nblocks);
    let rows = plan_rows(len, stride);
    let rp = plan_rows_per_block(len, stride, nblocks);
    let raw = raw_plan_len(len, stride, nblocks);
    let k = plan_len(len, stride, nblocks);
    if rows > 0 {
        lemma_plan_shape(len, stride, nblocks);
        assert(rows >= 0);
        assert forall|j: int| 0 <= j < k implies #[trigger] plan_start(len, stride, nblocks, j)
            < plan_end(len, stride, nblocks, j) && plan_end(len, stride, nblocks, j) <= rows * stride
            && plan_start(len, stride, nblocks, j) % stride == 0 && plan_end(len, stride, nblocks, j)
            % stride == 0 by {
            lemma_mul_inequality(j, raw - 1, rp);
            lemma_mul_is_distributive_add(rp, j, 1);
            lemma_mul_is_commutative(rp, j);
            lemma_mul_is_commutative(rp, j + 1);
            let top = if j + 1 < k {
                (j + 1) * rp
            } else {
                rows
            };
            if j + 1 < k {
                lemma_mul_inequality(j + 1, raw - 1, rp);
            }
            assert(j * rp < top);
            assert(top <= rows);
            assert(j * rp * stride < top * stride) by (nonlinear_arith)
                requires j * rp < top, stride > 0;
            lemma_mul_inequality(top, rows, stride);
            lemma_mod_multiples_basic(j * rp, stride);
            lemma_mod_multiples_basic(top, stride);
        }
        assert forall|j: int| 0 <= j < k implies #[trigger] plan_end(len, stride, nblocks, j)
            <= rows * stride by {
            assert(plan_start(len, stride, nblocks, j) < plan_end(len, stride, nblocks, j));
        }
        assert forall|j: int| 0 <= j < k - 1 implies #[trigger] plan_end(len, stride, nblocks, j)
            == plan_start(len, stride, nblocks, j + 1) by {
        }
    }
}

/// When the input is split (`block_count` gives more than one block) and the
/// row size divides it, no block is smaller than `PAR_MIN_BLOCK` bytes.
pub proof fn lemma_split_blocks_full_size(len: nat, stride: nat, threads: nat)
    requires
        stride > 0,
        len % stride == 0,
        block_count_spec(len as int, threads as int) > 1,
    ensures
        forall|j: int|
            0 <= j < plan_len(len as int, stride as int, block_count_spec(len as int, threads as int))
                ==> #[trigger] plan_end(
                len as int,
                stride as int,
                block_count_spec(len as int, threads as int),
                j,
            ) - plan_start(len as int, stride as int, block_count_spec(len as int, threads as int), j)
                >= PAR_MIN_BLOCK,
{
    let n = block_count_spec(len as int, threads as int);
    let l = len as int;
    let s = stride as int;
    lemma_block_count_bounds(len, threads);
    lemma_block_plan_tiles(l, s, n);
    lemma_raw_plan_tiles(l, s, n);
    let rows = plan_rows(l, s);
    let rp = plan_rows_per_block(l, s, n);
    let raw = raw_plan_len(l, s, n);
    let k = plan_len(l, s, n);
    if rows > 0 {
        lemma_plan_shape(l, s, n);
        assert(rows * s == l);
        assert(rp * s >= PAR_MIN_BLOCK) by (nonlinear_arith)
            requires rp * n >= rows, rows * s == l, n * PAR_MIN_BLOCK <= l, n > 1, s > 0, rp >= 1;
        assert forall|j: int| 0 <= j < k implies #[trigger] plan_end(l, s, n, j) - plan_start(
            l,
            s,
            n,
            j,
        ) >= PAR_MIN_BLOCK by {
            lemma_mul_is_distributive_add(rp, j, 1);
            lemma_mul_is_commutative(rp, j);
            lemma_mul_is_commutative(rp, j + 1);
            if j + 1 < k {
                assert(plan_end(l, s, n, j) == (j + 1) * rp * s);
                assert((j + 1) * rp * s - j * rp * s == rp * s) by (nonlinear_arith)
                    requires (j + 1) * rp == j * rp + rp;
            } else {
                assert(j == k - 1);
                assert(plan_end(l, s, n, j) == rows * s);
                if plan_short_tail(l, s, n) {
                    // The merged last block holds a full block and the short tail.
                    assert(j == raw - 2);
                    assert(rows - j * rp >= rp) by (nonlinear_arith)
                        requires (raw - 1) * rp < rows, j == raw - 2, rp >= 1, (j + 1) * rp == j * rp + rp;
                    assert(rows * s - j * rp * s >= rp * s) by (nonlinear_arith)
                        requires rows - j * rp >= rp, s > 0;
                } else if raw >= 2 {
                    assert(j == raw - 1);
                    assert(rows * s - j * rp * s == (rows - j * rp) * s) by (nonlinear_arith);
                } else {
                    assert(j == 0);
                    assert(rows * s >= 2 * PAR_MIN_BLOCK);
                }
            }
        }
    }
}

/// The even cut: `rows_per_block` rows per block, the last block holding
/// what is left.
fn even_ranges(filtered_len: usize, row_stride: usize, nblocks: usize) -> (r: Vec<(usize, usize)>)
    requires
        row_stride > 0,
        nblocks > 0,
    ensures
        is_raw_block_plan(r@, filtered_len as int, row_stride as int, nblocks as int),
{
    let ghost len = filtered_len as int;
    let ghost stride = row_stride as int;
    let ghost n = nblocks as int;
    let rows = filtered_len / row_stride;
    let whole = rows / nblocks;
    let spill = rows % nblocks;
    proof {
        lemma_fundamental_div_mod(rows as int, n);
        assert(whole * nblocks + spill == rows) by {
            lemma_mul_is_commutative(n, whole as int);
        }
        if spill != 0 {
            assert(whole + 1 <= rows) by (nonlinear_arith)
                requires whole * n + spill == rows, spill >= 1, n >= 1, whole >= 0;
        }
    }
    let rows_per = whole + if spill != 0 {
        1
    } else {
        0
    };
    proof {
        lemma_ceil_div(rows as int, n);
        lemma_fundamental_div_mod(len, stride);
        assert(rows * stride <= len) by (nonlinear_arith)
            requires rows == len / stride, len == stride * (len / stride) + len % stride, len % stride >= 0;
    }
    assert(rows_per == plan_rows_per_block(len, stride, n));
    let mut ranges: Vec<(usize, usize)> = Vec::new();
    let mut r0: usize = 0;
    while r0 < rows
        invariant
            rows == plan_rows(len, stride),
            rows_per == plan_rows_per_block(len, stride, n),
            rows > 0 ==> rows_per > 0,
            rows_per <= rows || rows == 0,
            rows * stride <= len,
            len == filtered_len,
            stride == row_stride,
            n == nblocks,
            stride > 0,
            r0 <= rows,
            r0 == (if ranges@.len() * rows_per < rows {
                ranges@.len() * rows_per
            } else {
                rows as int
            }),
            ranges@.len() == 0 || (ranges@.len() - 1) * rows_per < rows,
            forall|j: int|
                0 <= j < ranges@.len() ==> #[trigger] ranges@[j].0 == plan_start(len, stride, n, j)
                    && ranges@[j].1 == raw_plan_end(len, stride, n, j),
        decreases rows - r0,
    {
        let ghost k = ranges@.len() as int;
        assert(r0 == k * rows_per);
        let r1 = if rows - r0 < rows_per {
            rows
        } else {
            r0 + rows_per
        };
        proof {
            lemma_mul_is_distributive_add(rows_per as int, k, 1);
            lemma_mul_is_commutative(rows_per as int, k);
            lemma_mul_is_commutative(rows_per as int, k + 1);
            assert((k + 1) * rows_per == k * rows_per + rows_per);
            lemma_mul_inequality(r0 as int, rows as int, stride);
            lemma_mul_inequality(r1 as int, rows as int, stride);
            lemma_mul_is_associative(k, rows_per as int, stride);
        }
        let start = r0 * row_stride;
        let end = r1 * row_stride;
        assert(start == plan_start(len, stride, n, k));
        assert(end == raw_plan_end(len, stride, n, k));
        let ghost before = ranges@;
        ranges.push((start, end));
        assert(forall|j: int| 0 <= j < k ==> ranges@[j] == before[j]);
        assert(ranges@[k] == (start, end));
        r0 = r1;
    }
    proof {
        let k = ranges@.len() as int;
        if rows > 0 {
            assert(k >= 1);
            assert(k * rows_per >= rows);
            lemma_ceil_div_unique(rows as int, rows_per as int, k);
            assert(k == raw_plan_len(len, stride, n));
        } else {
            assert(k == 0);
            assert(raw_plan_len(len, stride, n) == 0);
        }
        assert(forall|j: int|
            0 <= j < ranges@.len() ==> #[trigger] ranges@[j].0 == plan_start(len, stride, n, j)
                && ranges@[j].1 == raw_plan_end(len, stride, n, j));
        assert(ranges@.len() == raw_plan_len(len, stride, n));
        assert(is_raw_block_plan(ranges@, len, stride, n));
    }
    ranges
}

/// The rows are shared out evenly, and a last block is merged only when it
/// is short: every block but the last holds exactly `ceil(rows / nblocks)`
/// rows, and the last holds at most that many rows and fewer than
/// `PAR_MIN_BLOCK` bytes more.
pub proof fn lemma_plan_shares_rows_evenly(len: int, stride: int, nblocks: int)
    requires
        len >= 0,
        stride > 0,
        nblocks > 0,
    ensures
        forall|j: int|
            0 <= j < plan_len(len, stride, nblocks) - 1 ==> #[trigger] plan_end(len, stride, nblocks, j)
                - plan_start(len, stride, nblocks, j) == plan_rows_per_block(len, stride, nblocks)
                * stride,
        plan_len(len, stride, nblocks) > 0 ==> plan_end(
            len,
            stride,
            nblocks,
            plan_len(len, stride, nblocks) - 1,
        ) - plan_start(len, stride, nblocks, plan_len(len, stride, nblocks) - 1)
            < plan_rows_per_block(len, stride, nblocks) * stride + PAR_MIN_BLOCK,
{
    let rows = plan_rows(len, stride);
    let rp = plan_rows_per_block(len, stride, nblocks);
    let raw = raw_plan_len(len, stride, nblocks);
    let k = plan_len(len, stride, nblocks);
    lemma_raw_plan_tiles(len, stride, nblocks);
    if rows > 0 {
        lemma_plan_shape(len, stride, nblocks);
        assert forall|j: int| 0 <= j < k - 1 implies #[trigger] plan_end(len, stride, nblocks, j)
            - plan_start(len, stride, nblocks, j) == rp * stride by {
            assert((j + 1) * rp * stride - j * rp * stride == rp * stride) by (nonlinear_arith);
        }
        let a = plan_start(len, stride, nblocks, k - 1);
        let b = plan_end(len, stride, nblocks, k - 1);
        assert(b == rows * stride);
        if plan_short_tail(len, stride, nblocks) {
            assert(a == (raw - 2) * rp * stride);
            assert(b - a == rp * stride + (rows - (raw - 1) * rp) * stride) by (nonlinear_arith)
                requires a == (raw - 2) * rp * stride, b == rows * stride;
        } else {
            assert(k == raw);
            assert(a == (raw - 1) * rp * stride);
            assert(rows - (raw - 1) * rp <= rp) by (nonlinear_arith)
                requires raw * rp >= rows;
            assert(b - a <= rp * stride) by (nonlinear_arith)
                requires a == (raw - 1) * rp * stride, b == rows * stride, rows - (raw - 1) * rp
                    <= rp, stride > 0;
        }
    }
}

/// The size of the last block of the even cut.
proof fn lemma_raw_tail(len: int, stride: int, nblocks: int)
    requires
        len >= 0,
        stride > 0,
        nblocks > 0,
        raw_plan_len(len, stride, nblocks) >= 2,
    ensures
        raw_plan_end(len, stride, nblocks, raw_plan_len(len, stride, nblocks) - 1) - plan_start(
            len,
            stride,
            nblocks,
            raw_plan_len(len, stride, nblocks) - 1,
        ) == (plan_rows(len, stride) - (raw_plan_len(len, stride, nblocks) - 1)
            * plan_rows_per_block(len, stride, nblocks)) * stride,
{
    lemma_raw_plan_tiles(len, stride, nblocks);
    let k = raw_plan_len(len, stride, nblocks);
    let rp = plan_rows_per_block(len, stride, nblocks);
    let rows = plan_rows(len, stride);
    let a = plan_start(len, stride, nblocks, k - 1);
    let b = raw_plan_end(len, stride, nblocks, k - 1);
    assert(a == (k - 1) * rp * stride);
    assert(b == rows * stride);
    assert(b - a == (rows - (k - 1) * rp) * stride) by (nonlinear_arith)
        requires a == (k - 1) * rp * stride, b == rows * stride;
}

/// With a short last block, merging it into the block before gives the
/// plan.
proof fn lemma_merged_plan(
    raw: Seq<(usize, usize)>,
    r: Seq<(usize, usize)>,
    len: int,
    stride: int,
    nblocks: int,
)
    requires
        len >= 0,
        stride > 0,
        nblocks > 0,
        is_raw_block_plan(raw, len, stride, nblocks),
        plan_short_tail(len, stride, nblocks),
        r.len() == raw.len() - 1,
        forall|j: int| 0 <= j < raw.len() - 2 ==> r[j] == raw[j],
        r[raw.len() - 2] == (raw[raw.len() - 2].0, raw[raw.len() - 1].1),
    ensures
        is_block_plan(r, len, stride, nblocks),
{
    lemma_raw_plan_tiles(len, stride, nblocks);
    let k = raw.len() as int;
    assert(raw[k - 1].0 == plan_start(len, stride, nblocks, k - 1));
    assert(raw[k - 2].0 == plan_start(len, stride, nblocks, k - 2));
    assert forall|j: int| 0 <= j < r.len() implies #[trigger] r[j].0 == plan_start(
        len,
        stride,
        nblocks,
        j,
    ) && r[j].1 == plan_end(len, stride, nblocks, j) by {
        if j < k - 2 {
            assert(r[j] == raw[j]);
            assert(raw[j].0 == plan_start(len, stride, nblocks, j));
            assert(raw_plan_end(len, stride, nblocks, j) == plan_start(len, stride, nblocks, j + 1));
        }
    }
}

/// Without a short last block, the even cut is the plan.
proof fn lemma_unmerged_plan(r: Seq<(usize, usize)>, len: int, stride: int, nblocks: int)
    requires
        len >= 0,
        stride > 0,
        nblocks > 0,
        is_raw_block_plan(r, len, stride, nblocks),
        !plan_short_tail(len, stride, nblocks),
    ensures
        is_block_plan(r, len, stride, nblocks),
{
    lemma_raw_plan_tiles(len, stride, nblocks);
    let k = raw_plan_len(len, stride, nblocks);
    assert(plan_len(len, stride, nblocks) == k);
    assert forall|j: int| 0 <= j < r.len() implies #[trigger] r[j].0 == plan_start(
        len,
        stride,
        nblocks,
        j,
    ) && r[j].1 == plan_end(len, stride, nblocks, j) by {
        assert(r[j].0 == plan_start(len, stride, nblocks, j));
        assert(r[j].1 == raw_plan_end(len, stride, nblocks, j));
        if j < k - 1 {
            assert(raw_plan_end(len, stride, nblocks, j) == plan_start(len, stride, nblocks, j + 1));
        }
    }
}

/// The `(start, end)` byte ranges of the blocks: `filtered_len` bytes of
/// `row_stride`-byte rows shared out over `nblocks` blocks, each cut on a
/// row boundary. A last block shorter than `PAR_MIN_BLOCK` bytes is merged
/// into the block before it.
pub fn block_ranges(filtered_len: usize, row_stride: usize, nblocks: usize) -> (r: Vec<(usize, usize)>)
    requires
        row_stride > 0,
        nblocks > 0,
    ensures
        is_block_plan(r@, filtered_len as int, row_stride as int, nblocks as int),
{
    let ghost len = filtered_len as int;
    let ghost stride = row_stride as int;
    let ghost n = nblocks as int;
    let mut ranges = even_ranges(filtered_len, row_stride, nblocks);
    proof {
        lemma_raw_plan_tiles(len, stride, n);
    }
    // A last block shorter than a full-size block is merged into the one
    // before it, so that no block is smaller than `PAR_MIN_BLOCK`.
    let count = ranges.len();
    if count >= 2 {
        let (a, b) = ranges[count - 1];
        proof {
            lemma_raw_tail(len, stride, n);
            assert(ranges@[count - 1].0 == plan_start(len, stride, n, count - 1));
            assert((b - a < PAR_MIN_BLOCK) == plan_short_tail(len, stride, n));
        }
        if b - a < PAR_MIN_BLOCK {
            let (a2, _) = ranges[count - 2];
            let ghost raw = ranges@;
            ranges.pop();
            ranges.set(count - 2, (a2, b));
            proof {
                assert(raw[count - 2].0 == plan_start(len, stride, n, count - 2));
                lemma_merged_plan(raw, ranges@, len, stride, n);
            }
        } else {
            proof {
                lemma_unmerged_plan(ranges@, len, stride, n);
            }
        }
    } else {
        proof {
            lemma_unmerged_plan(ranges@, len, stride, n);
        }
    }
    ranges
}

} // verus!
