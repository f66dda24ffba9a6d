//! Multi-threaded DEFLATE for a single image, pigz style.
//!
//! One zlib stream is built by hand:
//!
//! ```text
//!   [zlib header] [raw DEFLATE blocks, in order] [Adler-32 of the input]
//! ```
//!
//! Every block but the last ends with a full flush (byte boundary, dictionary
//! reset), so the next block's raw output can simply follow it; the last one
//! ends with `Finish`. The header depends on the level alone and the trailer
//! on the uncompressed input alone, so neither depends on the split.
//!
//! The split is sized, not counted: a block is never smaller than
//! [`PAR_MIN_BLOCK`], and an input too small to yield two such blocks is
//! compressed in one piece.

use vstd::prelude::*;
use vstd::slice::slice_subrange;
use crate::checksum::{adler32_spec, be32, zlib_trailer};
use crate::deflate::{
    compressor_step,
    compressor_total_in,
    compressor_total_out,
    deflate_encoder,
    deflate_encoder_finish,
    deflate_encoder_output,
    deflate_encoder_write_all,
    deflate_run,
    flush_code,
    io_error_from_compress,
    io_error_other,
    raw_compressor,
    DeflateCall,
    FlushMode,
    StepStatus,
    FLUSH_FINISH,
    FLUSH_FULL,
    FLUSH_NONE,
    STATUS_STREAM_END,
};
use crate::split::{block_ranges, is_block_plan, lemma_block_plan_tiles, plan_end, plan_len, plan_start};

verus! {

/// Smallest block worth splitting off, in filtered bytes (1 MiB).
pub const PAR_MIN_BLOCK: usize = 0x10_0000;

/// How many blocks an input of `len` bytes is split into with `threads`
/// threads: one when the input cannot yield two full-size blocks or there is
/// at most one thread, else as many full-size blocks as fit, capped by the
/// thread budget.
pub open spec fn block_count_spec(len: int, threads: int) -> int {
    if threads <= 1 || len < 2 * PAR_MIN_BLOCK {
        1
    } else if len / (PAR_MIN_BLOCK as int) < threads {
        len / (PAR_MIN_BLOCK as int)
    } else {
        threads
    }
}

/// How many blocks to split `filtered_len` bytes into, given a thread budget.
///
/// Returns 1 when the image cannot yield at least two full-size blocks, which
/// is the case that would otherwise pay the size penalty of small blocks for
/// nothing.
pub fn block_count(filtered_len: usize, threads: usize) -> (n: usize)
    ensures
        n == block_count_spec(filtered_len as int, threads as int),
{
    if threads <= 1 || filtered_len < 2 * PAR_MIN_BLOCK {
        return 1;
    }
    let full_blocks = filtered_len / PAR_MIN_BLOCK;
    let capped = if full_blocks < threads { full_blocks } else { threads };
    if capped < 1 { 1 } else { capped }
}

/// At least one block, never more than the thread budget (when there is
/// one), and when the input is split, it holds at least `PAR_MIN_BLOCK`
/// bytes per block.
pub proof fn lemma_block_count_bounds(len: nat, threads: nat)
    ensures
        block_count_spec(len as int, threads as int) >= 1,
        threads >= 1 ==> block_count_spec(len as int, threads as int) <= threads,
        block_count_spec(len as int, threads as int) > 1 ==> block_count_spec(
            len as int,
            threads as int,
        ) * PAR_MIN_BLOCK <= len,
{
    let n = block_count_spec(len as int, threads as int);
    if n > 1 {
        let q = len as int / (PAR_MIN_BLOCK as int);
        assert(q * PAR_MIN_BLOCK <= len) by (nonlinear_arith)
            requires q == len as int / (PAR_MIN_BLOCK as int), len >= 0;
        assert(n <= q);
        assert(n * PAR_MIN_BLOCK <= q * PAR_MIN_BLOCK) by (nonlinear_arith)
            requires n <= q;
    }
}

/// When the input is split, the block count is the largest number of
/// full-size blocks that fit in the input without exceeding the thread
/// budget: that many fit, and either the budget is used up or one more
/// full-size block would not fit.
pub proof fn lemma_block_count_is_largest_fit(len: nat, threads: nat)
    requires
        threads >= 2,
        len >= 2 * PAR_MIN_BLOCK,
    ensures
        2 <= block_count_spec(len as int, threads as int) <= threads,
        block_count_spec(len as int, threads as int) * PAR_MIN_BLOCK <= len,
        block_count_spec(len as int, threads as int) == threads || (block_count_spec(
            len as int,
            threads as int,
        ) + 1) * PAR_MIN_BLOCK > len,
{
    let n = block_count_spec(len as int, threads as int);
    let q = len as int / (PAR_MIN_BLOCK as int);
    lemma_block_count_bounds(len, threads);
    assert(q >= 2) by (nonlinear_arith)
        requires q == len as int / (PAR_MIN_BLOCK as int), len >= 2 * PAR_MIN_BLOCK;
    assert((q + 1) * PAR_MIN_BLOCK > len) by (nonlinear_arith)
        requires q == len as int / (PAR_MIN_BLOCK as int), len >= 0;
}

/// The FLEVEL field of the zlib header for a compression level: 0 for the
/// fastest levels (0 and 1), 1 for fast (2 to 5), 2 for the default (6),
/// 3 for the slowest (7 and up).
pub open spec fn level_flag(level: u32) -> u8 {
    if level <= 1 {
        0
    } else if level <= 5 {
        1
    } else if level == 6 {
        2
    } else {
        3
    }
}

/// The two-byte zlib header for `level`: CMF `0x78` (DEFLATE, 32 KiB
/// window) and an FLG byte with the level hint and the check bits.
pub open spec fn zlib_header_spec(level: u32) -> Seq<u8> {
    seq![
        0x78u8,
        if level_flag(level) == 0 {
            0x01u8
        } else if level_flag(level) == 1 {
            0x5eu8
        } else if level_flag(level) == 2 {
            0x9cu8
        } else {
            0xdau8
        },
    ]
}

/// The 2-byte zlib container header for `level`.
///
/// It depends only on the level, which is why the stream can be emitted
/// front to back.
pub fn zlib_header(level: u32) -> (h: [u8; 2])
    ensures
        h@ == zlib_header_spec(level),
{
    // CMF: deflate, 32 KiB window. FLG: level hint + check bits so
    // (CMF<<8 | FLG) % 31 == 0.
    let cmf: u8 = 0x78;
    let flevel: u8 = if level <= 1 {
        0
    } else if level <= 5 {
        1
    } else if level == 6 {
        2
    } else {
        3
    };
    let mut flg: u8 = flevel << 6u8;
    assert(flg == flevel * 64) by (bit_vector)
        requires flevel < 4, flg == flevel << 6u8;
    let word: u16 = (cmf as u16) << 8u16 | flg as u16;
    assert(word == 0x7800 + flg) by (bit_vector)
        requires cmf == 0x78, word == (cmf as u16) << 8u16 | flg as u16;
    let rem: u16 = word % 31;
    if rem != 0 {
        flg = flg + (31 - rem) as u8;
    }
    let h = [cmf, flg];
    assert(h@ =~= zlib_header_spec(level));
    h
}

/// The header is a valid zlib header: DEFLATE with a 32 KiB window, no
/// preset dictionary, the level hint in FLEVEL, and check bits that make
/// `CMF * 256 + FLG` a multiple of 31.
pub proof fn lemma_zlib_header_valid(level: u32)
    ensures
        zlib_header_spec(level).len() == 2,
        zlib_header_spec(level)[0] % 16 == 8,
        zlib_header_spec(level)[0] / 16 == 7,
        (zlib_header_spec(level)[0] * 256 + zlib_header_spec(level)[1]) % 31 == 0,
        (zlib_header_spec(level)[1] / 32) % 2 == 0,
        zlib_header_spec(level)[1] / 64 == level_flag(level),
{
}

/// Size of the scratch buffer that compressor output is drained through.
pub const SCRATCH: usize = 0x1_0000;

/// The most a block's output may hold before one more step: the
/// compressor's `u64` output counter must have room for a full scratch
/// buffer.
pub const OUT_LIMIT: u64 = 0xffff_ffff_fffe_ffff;

/// Appends the first `n` bytes of `buf` to `out`.
pub fn append_prefix(out: &mut Vec<u8>, buf: &[u8], n: usize)
    requires
        n <= buf@.len(),
    ensures
        final(out)@ == old(out)@ + buf@.subrange(0, n as int),
{
    let mut i: usize = 0;
    while i < n
        invariant
            i <= n,
            n <= buf@.len(),
            out@ == old(out)@ + buf@.subrange(0, i as int),
        decreases n - i,
    {
        out.push(buf[i]);
        i = i + 1;
        assert(out@ =~= old(out)@ + buf@.subrange(0, i as int));
    }
}

/// Bytes emitted by a raw compressor at `level` after `calls`.
pub open spec fn run_emitted(level: u32, calls: Seq<DeflateCall>) -> Seq<u8> {
    deflate_run(level, calls).0
}

/// Input bytes taken by a raw compressor at `level` after `calls`.
pub open spec fn run_taken(level: u32, calls: Seq<DeflateCall>) -> nat {
    deflate_run(level, calls).1
}

/// The status of the last of `calls`.
pub open spec fn run_status(level: u32, calls: Seq<DeflateCall>) -> u8 {
    deflate_run(level, calls).2
}

/// A feeding call: the rest of `chunk` from byte `taken` on, a full scratch
/// buffer of room, no flush.
pub open spec fn feed_call(chunk: Seq<u8>, taken: nat) -> DeflateCall {
    (chunk.subrange(taken as int, chunk.len() as int), SCRATCH as nat, FLUSH_NONE)
}

/// A closing call: no input, a full scratch buffer of room, and the flush
/// that ends the block: `Finish` for the last block, a full flush otherwise.
pub open spec fn end_call(is_last: bool) -> DeflateCall {
    (Seq::empty(), SCRATCH as nat, if is_last {
        FLUSH_FINISH
    } else {
        FLUSH_FULL
    })
}

/// The feeding phase of a block, continued from `calls`: while input is
/// left, offer the rest of it; stop once all is taken or a call neither
/// takes nor emits anything. `None` when the output outgrows `OUT_LIMIT`
/// first.
pub open spec fn feed_calls(level: u32, chunk: Seq<u8>, calls: Seq<DeflateCall>) -> Option<
    Seq<DeflateCall>,
>
    decreases (chunk.len() - run_taken(level, calls)) + (OUT_LIMIT - run_emitted(level, calls).len()),
{
    let t = run_taken(level, calls);
    let e = run_emitted(level, calls).len();
    if t >= chunk.len() {
        Some(calls)
    } else if e > OUT_LIMIT {
        None
    } else {
        let next = calls.push(feed_call(chunk, t));
        let t2 = run_taken(level, next);
        let e2 = run_emitted(level, next).len();
        if t2 == t && e2 == e {
            Some(next)
        } else if t2 >= chunk.len() {
            Some(next)
        } else if e2 > OUT_LIMIT {
            None
        } else if t <= t2 && e <= e2 {
            feed_calls(level, chunk, next)
        } else {
            None
        }
    }
}

/// The closing phase of a block, continued from `calls`: repeat the closing
/// call until the stream ends or a call emits nothing. `None` when the
/// output outgrows `OUT_LIMIT` first.
pub open spec fn drain_calls(level: u32, is_last: bool, calls: Seq<DeflateCall>) -> Option<
    Seq<DeflateCall>,
>
    decreases OUT_LIMIT - run_emitted(level, calls).len(),
{
    let e = run_emitted(level, calls).len();
    if e > OUT_LIMIT {
        None
    } else {
        let next = calls.push(end_call(is_last));
        let e2 = run_emitted(level, next).len();
        if run_status(level, next) == STATUS_STREAM_END {
            Some(next)
        } else if e2 == e {
            Some(next)
        } else if e2 > OUT_LIMIT {
            None
        } else if e < e2 {
            drain_calls(level, is_last, next)
        } else {
            None
        }
    }
}

/// The calls a fresh raw compressor at `level` sees while one block of
/// `chunk` is compressed; `None` when its output would outgrow `OUT_LIMIT`.
pub open spec fn block_calls(level: u32, chunk: Seq<u8>, is_last: bool) -> Option<Seq<DeflateCall>> {
    match feed_calls(level, chunk, Seq::empty()) {
        Some(fed) => drain_calls(level, is_last, fed),
        None => None,
    }
}

/// The raw DEFLATE bytes of one block of `chunk` at `level`: everything the
/// compressor emits over [`block_calls`].
pub open spec fn block_output(level: u32, chunk: Seq<u8>, is_last: bool) -> Option<Seq<u8>> {
    match block_calls(level, chunk, is_last) {
        Some(calls) => Some(run_emitted(level, calls)),
        None => None,
    }
}

/// A block ends with its closing call: `Finish` exactly when it is the last
/// block, a full flush otherwise; and every call before the closing phase
/// only feeds input, without flushing.
pub proof fn lemma_block_ends_with_its_flush(level: u32, chunk: Seq<u8>, is_last: bool)
    ensures
        block_calls(level, chunk, is_last) matches Some(calls) ==> {
            &&& calls.len() >= 1
            &&& calls.last() == end_call(is_last)
            &&& forall|k: int|
                0 <= k < calls.len() ==> #[trigger] calls[k].2 == FLUSH_NONE || calls[k]
                    == end_call(is_last)
        },
{
    lemma_feed_flushes(level, chunk, Seq::empty());
    if let Some(fed) = feed_calls(level, chunk, Seq::empty()) {
        lemma_drain_flushes(level, is_last, fed);
    }
}

proof fn lemma_feed_flushes(level: u32, chunk: Seq<u8>, calls: Seq<DeflateCall>)
    requires
        forall|k: int| 0 <= k < calls.len() ==> #[trigger] calls[k].2 == FLUSH_NONE,
    ensures
        feed_calls(level, chunk, calls) matches Some(c) ==> forall|k: int|
            0 <= k < c.len() ==> #[trigger] c[k].2 == FLUSH_NONE,
    decreases (chunk.len() - run_taken(level, calls)) + (OUT_LIMIT - run_emitted(level, calls).len()),
{
    let t = run_taken(level, calls);
    let e = run_emitted(level, calls).len();
    if t < chunk.len() && e <= OUT_LIMIT {
        let next = calls.push(feed_call(chunk, t));
        assert(forall|k: int| 0 <= k < next.len() ==> #[trigger] next[k].2 == FLUSH_NONE);
        let t2 = run_taken(level, next);
        let e2 = run_emitted(level, next).len();
        if !(t2 == t && e2 == e) && t2 < chunk.len() && e2 <= OUT_LIMIT && t <= t2 && e <= e2 {
            lemma_feed_flushes(level, chunk, next);
        }
    }
}

proof fn lemma_drain_flushes(level: u32, is_last: bool, calls: Seq<DeflateCall>)
    requires
        forall|k: int| 0 <= k < calls.len() ==> #[trigger] calls[k].2 == FLUSH_NONE || calls[k]
            == end_call(is_last),
    ensures
        drain_calls(level, is_last, calls) matches Some(c) ==> {
            &&& c.len() >= 1
            &&& c.last() == end_call(is_last)
            &&& forall|k: int|
                0 <= k < c.len() ==> #[trigger] c[k].2 == FLUSH_NONE || c[k] == end_call(is_last)
        },
    decreases OUT_LIMIT - run_emitted(level, calls).len(),
{
    let e = run_emitted(level, calls).len();
    if e <= OUT_LIMIT {
        let next = calls.push(end_call(is_last));
        assert(forall|k: int|
            0 <= k < next.len() ==> #[trigger] next[k].2 == FLUSH_NONE || next[k] == end_call(is_last));
        let e2 = run_emitted(level, next).len();
        if run_status(level, next) != STATUS_STREAM_END && e2 != e && e2 <= OUT_LIMIT && e < e2 {
            lemma_drain_flushes(level, is_last, next);
        }
    }
}

/// The feeding phase only appends to what it was continued from: each call
/// it adds offers the rest of `chunk` from what was taken before it, and it
/// ends once the chunk is taken or its last call took and emitted nothing.
proof fn lemma_feed_extends(level: u32, chunk: Seq<u8>, calls: Seq<DeflateCall>)
    ensures
        feed_calls(level, chunk, calls) matches Some(c) ==> {
            &&& calls.len() <= c.len()
            &&& c.take(calls.len() as int) == calls
            &&& forall|k: int|
                calls.len() <= k < c.len() ==> #[trigger] c[k] == feed_call(
                    chunk,
                    run_taken(level, c.take(k)),
                )
            &&& run_taken(level, c) >= chunk.len() || (calls.len() < c.len() && run_taken(
                level,
                c.take(c.len() - 1),
            ) == run_taken(level, c) && run_emitted(level, c.take(c.len() - 1)).len()
                == run_emitted(level, c).len())
        },
    decreases (chunk.len() - run_taken(level, calls)) + (OUT_LIMIT - run_emitted(level, calls).len()),
{
    let t = run_taken(level, calls);
    let e = run_emitted(level, calls).len();
    let n = calls.len() as int;
    assert(calls.take(n) =~= calls);
    if t < chunk.len() && e <= OUT_LIMIT {
        let next = calls.push(feed_call(chunk, t));
        let t2 = run_taken(level, next);
        let e2 = run_emitted(level, next).len();
        assert(next.take(n) =~= calls);
        assert(next.take(n + 1) =~= next);
        assert(next[n] == feed_call(chunk, run_taken(level, next.take(n))));
        if !(t2 == t && e2 == e) && t2 < chunk.len() && e2 <= OUT_LIMIT && t <= t2 && e <= e2 {
            lemma_feed_extends(level, chunk, next);
            if let Some(c) = feed_calls(level, chunk, next) {
                assert(c.take(n) =~= c.take(n + 1).take(n));
                assert(c[n] == c.take(n + 1)[n]);
            }
        }
    }
}

/// The closing phase only appends closing calls, at least one, and it ends
/// once the stream has ended or its last call emitted nothing.
proof fn lemma_drain_extends(level: u32, is_last: bool, calls: Seq<DeflateCall>)
    ensures
        drain_calls(level, is_last, calls) matches Some(c) ==> {
            &&& calls.len() < c.len()
            &&& c.take(calls.len() as int) == calls
            &&& forall|k: int| calls.len() <= k < c.len() ==> #[trigger] c[k] == end_call(is_last)
            &&& run_status(level, c) == STATUS_STREAM_END || run_emitted(
                level,
                c.take(c.len() - 1),
            ).len() == run_emitted(level, c).len()
        },
    decreases OUT_LIMIT - run_emitted(level, calls).len(),
{
    let e = run_emitted(level, calls).len();
    let n = calls.len() as int;
    if e <= OUT_LIMIT {
        let next = calls.push(end_call(is_last));
        let e2 = run_emitted(level, next).len();
        assert(next.take(n) =~= calls);
        assert(next.take(next.len() - 1) =~= calls);
        if run_status(level, next) != STATUS_STREAM_END && e2 != e && e2 <= OUT_LIMIT && e < e2 {
            lemma_drain_extends(level, is_last, next);
            if let Some(c) = drain_calls(level, is_last, next) {
                assert(c.take(n) =~= c.take(n + 1).take(n));
                assert(c[n] == c.take(n + 1)[n]);
            }
        }
    }
}

/// The compressor is offered the whole chunk: a block's calls are first
/// feeding calls, each offering the rest of the chunk from what the
/// compressor has taken so far, and then closing calls only. Feeding stops
/// only once the compressor has taken the whole chunk, or when a feeding
/// call took no input and emitted nothing.
pub proof fn lemma_block_feeds_whole_chunk(level: u32, chunk: Seq<u8>, is_last: bool)
    ensures
        block_calls(level, chunk, is_last) matches Some(calls) ==> exists|f: int|
            #![trigger calls.take(f)]
            {
                &&& 0 <= f < calls.len()
                &&& forall|k: int|
                    0 <= k < f ==> #[trigger] calls[k] == feed_call(
                        chunk,
                        run_taken(level, calls.take(k)),
                    )
                &&& forall|k: int| f <= k < calls.len() ==> #[trigger] calls[k] == end_call(is_last)
                &&& run_taken(level, calls.take(f)) >= chunk.len() || (0 < f && run_taken(
                    level,
                    calls.take(f - 1),
                ) == run_taken(level, calls.take(f)) && run_emitted(level, calls.take(f - 1)).len()
                    == run_emitted(level, calls.take(f)).len())
            },
{
    lemma_feed_extends(level, chunk, Seq::empty());
    if let Some(fed) = feed_calls(level, chunk, Seq::empty()) {
        lemma_drain_extends(level, is_last, fed);
        if let Some(calls) = drain_calls(level, is_last, fed) {
            let f = fed.len() as int;
            assert(fed.take(f) =~= fed);
            assert forall|k: int| 0 <= k <= f implies #[trigger] calls.take(k) == fed.take(k) by {
                assert(calls.take(k) =~= calls.take(f).take(k));
            }
            assert forall|k: int| 0 <= k < f implies #[trigger] calls[k] == feed_call(
                chunk,
                run_taken(level, calls.take(k)),
            ) by {
                assert(calls.take(k) == fed.take(k));
                assert(calls[k] == calls.take(f)[k]);
            }
            if f > 0 {
                assert(calls.take(f - 1) == fed.take(f - 1));
            }
            assert(calls.take(f) == fed);
        }
    }
}

/// The closing flush is repeated until it is done: the last call of a block
/// either ended the stream or emitted nothing, so no output is left behind
/// in the compressor.
pub proof fn lemma_block_drains_compressor(level: u32, chunk: Seq<u8>, is_last: bool)
    ensures
        block_calls(level, chunk, is_last) matches Some(calls) ==> {
            &&& calls.len() >= 1
            &&& run_status(level, calls) == STATUS_STREAM_END || run_emitted(
                level,
                calls.take(calls.len() - 1),
            ).len() == run_emitted(level, calls).len()
        },
{
    if let Some(fed) = feed_calls(level, chunk, Seq::empty()) {
        lemma_drain_extends(level, is_last, fed);
    }
}

/// One block as raw DEFLATE at `level`. A non-final block ends with a full
/// flush, which closes the block on a byte boundary and resets the
/// dictionary, so the next block's raw output can be appended verbatim; the
/// final block ends the stream.
///
/// Output is drained through a `SCRATCH`-byte buffer. The block is exactly
/// what the compressor emits over [`block_calls`], and it fails only when
/// that output would outgrow the compressor's counters.
pub fn compress_block(chunk: &[u8], level: u32, is_last: bool) -> (res: std::io::Result<Vec<u8>>)
    requires
        level <= 9,
    ensures
        res is Ok <==> block_output(level, chunk@, is_last) is Some,
        res matches Ok(v) ==> block_output(level, chunk@, is_last) == Some(v@),
        res is Ok ==> (block_calls(level, chunk@, is_last) matches Some(calls) && (run_taken(
            level,
            calls,
        ) == chunk@.len() || exists|k: int|
            #![trigger calls.take(k)]
            0 < k < calls.len() && calls[k - 1].2 == FLUSH_NONE && run_taken(
                level,
                calls.take(k - 1),
            ) == run_taken(level, calls.take(k)) && run_emitted(level, calls.take(k - 1)).len()
                == run_emitted(level, calls.take(k)).len())),
{
    let mut d = raw_compressor(level);
    let mut out: Vec<u8> = Vec::new();
    let mut buf: Vec<u8> = vec![0u8; SCRATCH];
    let mut pos: usize = 0;
    assert(out@ =~= run_emitted(level, d.calls()));
    loop
        invariant_except_break
            pos == run_taken(level, d.calls()),
            pos <= chunk@.len(),
            feed_calls(level, chunk@, Seq::empty()) == feed_calls(level, chunk@, d.calls()),
        invariant
            d.level() == level,
            out@ == run_emitted(level, d.calls()),
            buf@.len() == SCRATCH,
            run_taken(level, d.calls()) <= chunk@.len(),
            forall|k: int| 0 <= k < d.calls().len() ==> #[trigger] d.calls()[k].2 == FLUSH_NONE,
        ensures
            feed_calls(level, chunk@, Seq::empty()) == Some(d.calls()),
        decreases (chunk@.len() - pos) + (usize::MAX - out@.len()),
    {
        if pos >= chunk.len() {
            break;
        }
        if out.len() as u64 > OUT_LIMIT {
            return Err(io_error_other("compressed block too large"));
        }
        let ghost prev = d.calls();
        let before_in = compressor_total_in(&d);
        let before_out = compressor_total_out(&d);
        let input = slice_subrange(chunk, pos, chunk.len());
        let step = compressor_step(&mut d, input, &mut buf, FlushMode::Buffered);
        if let Err(e) = step {
            return Err(io_error_from_compress(e));
        }
        let after_in = compressor_total_in(&d);
        let after_out = compressor_total_out(&d);
        let produced = (after_out - before_out) as usize;
        let consumed = (after_in - before_in) as usize;
        let ghost e1 = run_emitted(level, prev);
        let ghost e2 = run_emitted(level, d.calls());
        append_prefix(&mut out, buf.as_slice(), produced);
        proof {
            assert(d.calls() == prev.push(feed_call(chunk@, pos as nat)));
            assert(e2 =~= e1 + e2.subrange(e1.len() as int, e2.len() as int));
            assert(out@ =~= e2);
        }
        let _grown = out.len();
        pos = pos + consumed;
        if consumed == 0 && produced == 0 {
            break;
        }
    }
    let ghost fed = d.calls();
    let flush = if is_last {
        FlushMode::Finish
    } else {
        FlushMode::Full
    };
    let chunk_len = chunk.len();
    loop
        invariant_except_break
            block_calls(level, chunk@, is_last) == drain_calls(level, is_last, d.calls()),
        invariant
            d.level() == level,
            out@ == run_emitted(level, d.calls()),
            buf@.len() == SCRATCH,
            chunk@.len() == chunk_len,
            run_taken(level, d.calls()) == run_taken(level, fed),
            run_taken(level, d.calls()) <= chunk@.len(),
            flush_code(flush) == end_call(is_last).2,
            !is_last ==> forall|k: int|
                0 <= k < d.calls().len() ==> #[trigger] d.calls()[k].2 != FLUSH_FINISH,
        ensures
            block_calls(level, chunk@, is_last) == Some(d.calls()),
            out@ == run_emitted(level, d.calls()),
        decreases usize::MAX - out@.len(),
    {
        if out.len() as u64 > OUT_LIMIT {
            return Err(io_error_other("compressed block too large"));
        }
        let ghost prev = d.calls();
        let before_out = compressor_total_out(&d);
        let empty: [u8; 0] = [];
        let input = empty.as_slice();
        assert(input@ =~= Seq::<u8>::empty());
        let status = match compressor_step(&mut d, input, &mut buf, flush) {
            Ok(st) => st,
            Err(e) => {
                return Err(io_error_from_compress(e));
            },
        };
        let after_out = compressor_total_out(&d);
        let produced = (after_out - before_out) as usize;
        let ghost e1 = run_emitted(level, prev);
        let ghost e2 = run_emitted(level, d.calls());
        append_prefix(&mut out, buf.as_slice(), produced);
        proof {
            assert(d.calls() == prev.push(end_call(is_last)));
            assert(e2 =~= e1 + e2.subrange(e1.len() as int, e2.len() as int));
            assert(out@ =~= e2);
        }
        let _grown = out.len();
        match status {
            StepStatus::StreamEnd => {
                break;
            },
            _ => {
                if produced == 0 {
                    break;
                }
            },
        }
    }
    proof {
        lemma_feed_extends(level, chunk@, Seq::empty());
        lemma_drain_extends(level, is_last, fed);
        let calls = d.calls();
        let f = fed.len() as int;
        if run_taken(level, fed) < chunk@.len() {
            assert(calls.take(f) == fed);
            assert(calls.take(f - 1) =~= fed.take(f - 1));
            assert(calls[f - 1] == fed[f - 1]);
            assert(fed.take(f - 1 + 1) =~= fed);
        }
    }
    Ok(out)
}

/// The whole of `data` as one raw DEFLATE stream at `level`, through
/// `flate2`'s streaming encoder: the bytes the ordinary (serial) encoder
/// produces.
pub fn deflate_serial(data: &[u8], level: u32) -> (res: std::io::Result<Vec<u8>>)
    requires
        level <= 9,
    ensures
        res matches Ok(v) && v@ == deflate_encoder_output(level, seq![data@]),
{
    let mut e = deflate_encoder(level);
    let _written = deflate_encoder_write_all(&mut e, data);
    assert(e.writes() =~= seq![data@]);
    deflate_encoder_finish(e)
}

/// How many DEFLATE parts the stream over `len` bytes carries: one when the
/// input is not split, else one per row-aligned block.
pub open spec fn part_count(len: int, stride: int, threads: int) -> int {
    if block_count_spec(len, threads) <= 1 {
        1
    } else {
        plan_len(len, stride, block_count_spec(len, threads))
    }
}

/// Small inputs are not split: below two full-size blocks, or with at most
/// one thread, the stream carries a single DEFLATE part.
pub proof fn lemma_small_inputs_one_part(len: nat, stride: nat, threads: nat)
    requires
        len < 2 * PAR_MIN_BLOCK || threads <= 1,
    ensures
        block_count_spec(len as int, threads as int) == 1,
        part_count(len as int, stride as int, threads as int) == 1,
{
}

/// The stream carries at least one DEFLATE part, and never more parts than
/// the thread budget (when there is one).
pub proof fn lemma_parts_within_thread_budget(len: nat, stride: nat, threads: nat)
    requires
        stride > 0,
        len % stride == 0,
    ensures
        part_count(len as int, stride as int, threads as int) >= 1,
        threads >= 1 ==> part_count(len as int, stride as int, threads as int) <= threads,
{
    let n = block_count_spec(len as int, threads as int);
    lemma_block_count_bounds(len, threads);
    if n > 1 {
        lemma_block_plan_tiles(len as int, stride as int, n);
        assert(len >= stride) by (nonlinear_arith)
            requires len >= 2 * PAR_MIN_BLOCK, len % stride == 0, stride > 0;
    }
}

/// The compressor calls of block `j` of the split of `data` into `nblocks`
/// blocks of `stride`-byte rows, at `level`; the last block of the plan ends
/// the stream.
pub open spec fn split_block_calls(data: Seq<u8>, stride: int, level: u32, nblocks: int, j: int) -> Option<
    Seq<DeflateCall>,
> {
    block_calls(
        level,
        data.subrange(
            plan_start(data.len() as int, stride, nblocks, j),
            plan_end(data.len() as int, stride, nblocks, j),
        ),
        j == plan_len(data.len() as int, stride, nblocks) - 1,
    )
}

/// Block `j` of the split, as raw DEFLATE: what the compressor emits over
/// [`split_block_calls`].
pub open spec fn split_block(data: Seq<u8>, stride: int, level: u32, nblocks: int, j: int) -> Option<
    Seq<u8>,
> {
    match split_block_calls(data, stride, level, nblocks, j) {
        Some(calls) => Some(run_emitted(level, calls)),
        None => None,
    }
}

/// Exactly the final range of a split ends the stream, also when the plan
/// has fewer ranges than blocks were asked for (a short tail is merged):
/// the last call of that range's compressor is a `Finish`, and no call of
/// any other range finishes.
pub proof fn lemma_split_finishes_only_final_range(
    data: Seq<u8>,
    stride: int,
    level: u32,
    nblocks: int,
)
    requires
        stride > 0,
        nblocks > 0,
        data.len() >= stride,
    ensures
        1 <= plan_len(data.len() as int, stride, nblocks) <= nblocks,
        forall|j: int|
            0 <= j < plan_len(data.len() as int, stride, nblocks) ==> (#[trigger] split_block_calls(
                data,
                stride,
                level,
                nblocks,
                j,
            ) matches Some(c) ==> {
                &&& c.len() >= 1
                &&& j == plan_len(data.len() as int, stride, nblocks) - 1 ==> c.last().2
                    == FLUSH_FINISH
                &&& j != plan_len(data.len() as int, stride, nblocks) - 1 ==> forall|k: int|
                    0 <= k < c.len() ==> #[trigger] c[k].2 != FLUSH_FINISH
            }),
{
    let len = data.len() as int;
    let p = plan_len(len, stride, nblocks);
    lemma_block_plan_tiles(len, stride, nblocks);
    assert forall|j: int| 0 <= j < p implies (#[trigger] split_block_calls(
        data,
        stride,
        level,
        nblocks,
        j,
    ) matches Some(c) ==> {
        &&& c.len() >= 1
        &&& j == p - 1 ==> c.last().2 == FLUSH_FINISH
        &&& j != p - 1 ==> forall|k: int| 0 <= k < c.len() ==> #[trigger] c[k].2 != FLUSH_FINISH
    }) by {
        let chunk = data.subrange(plan_start(len, stride, nblocks, j), plan_end(len, stride, nblocks, j));
        lemma_block_ends_with_its_flush(level, chunk, j == p - 1);
    }
}

/// The first `m` blocks of the split, concatenated in order; `None` when
/// one of them fails.
pub open spec fn split_body(data: Seq<u8>, stride: int, level: u32, nblocks: int, m: int) -> Option<
    Seq<u8>,
>
    decreases m,
{
    if m <= 0 {
        Some(Seq::empty())
    } else {
        match (split_body(data, stride, level, nblocks, m - 1), split_block(data, stride, level, nblocks, m - 1)) {
            (Some(front), Some(last)) => Some(front + last),
            _ => None,
        }
    }
}

/// The DEFLATE body of the stream over `data`: the serial encoder's output
/// when the input is not split, else the blocks of the split in order.
pub open spec fn stream_body(data: Seq<u8>, stride: int, level: u32, threads: int) -> Option<Seq<u8>> {
    let n = block_count_spec(data.len() as int, threads);
    if n <= 1 {
        Some(deflate_encoder_output(level, seq![data]))
    } else {
        split_body(data, stride, level, n, plan_len(data.len() as int, stride, n))
    }
}

/// Once a block fails, every longer run of blocks fails.
proof fn lemma_split_body_fails(data: Seq<u8>, stride: int, level: u32, nblocks: int, i: int, m: int)
    requires
        0 <= i < m,
        split_block(data, stride, level, nblocks, i) is None,
    ensures
        split_body(data, stride, level, nblocks, m) is None,
    decreases m,
{
    if i < m - 1 {
        lemma_split_body_fails(data, stride, level, nblocks, i, m - 1);
    }
}

/// The blocks of a split stand in the stream body in plan order, each after
/// all of the blocks before it: the body of the first `m` blocks begins with
/// the body of the first `i`, and block `i` follows that directly.
pub proof fn lemma_split_body_in_order(
    data: Seq<u8>,
    stride: int,
    level: u32,
    nblocks: int,
    i: int,
    m: int,
)
    requires
        0 <= i < m,
    ensures
        split_body(data, stride, level, nblocks, m) matches Some(body) ==> {
            &&& split_body(data, stride, level, nblocks, i) matches Some(front)
            &&& split_block(data, stride, level, nblocks, i) matches Some(part)
            &&& front.len() + part.len() <= body.len()
            &&& body.take(front.len() as int) == front
            &&& body.subrange(front.len() as int, (front.len() + part.len()) as int) == part
        },
    decreases m,
{
    if let Some(body) = split_body(data, stride, level, nblocks, m) {
        let prev = split_body(data, stride, level, nblocks, m - 1).unwrap();
        let last = split_block(data, stride, level, nblocks, m - 1).unwrap();
        assert(body == prev + last);
        if i == m - 1 {
            assert(body.take(prev.len() as int) =~= prev);
            assert(body.subrange(prev.len() as int, (prev.len() + last.len()) as int) =~= last);
        } else {
            lemma_split_body_in_order(data, stride, level, nblocks, i, m - 1);
            let front = split_body(data, stride, level, nblocks, i).unwrap();
            let part = split_block(data, stride, level, nblocks, i).unwrap();
            assert(body.take(front.len() as int) =~= prev.take(front.len() as int));
            assert(body.subrange(front.len() as int, (front.len() + part.len()) as int) =~= prev.subrange(
                front.len() as int,
                (front.len() + part.len()) as int,
            ));
        }
    }
}

/// An input that stays serial gives the same stream body whatever the
/// thread budget.
pub proof fn lemma_serial_body_ignores_threads(data: Seq<u8>, stride: int, level: u32, t1: int, t2: int)
    requires
        block_count_spec(data.len() as int, t1) <= 1,
        block_count_spec(data.len() as int, t2) <= 1,
    ensures
        stream_body(data, stride, level, t1) == stream_body(data, stride, level, t2),
{
}

/// Compresses `filtered` (the whole PNG scanline stream, filter bytes
/// included) into a single zlib stream, split into up to `threads` blocks.
///
/// `row_stride` must divide `filtered.len()`: blocks are cut on scanline
/// boundaries so each sees whole rows. Blocks are compressed in stream
/// order; each block is independent of the others, so the bytes do not
/// depend on where the work runs. The stream is the zlib header, the
/// [`stream_body`], and the Adler-32 of the input; it fails only when a
/// block's output would outgrow the compressor's counters.
pub fn compress_parallel(
    filtered: &[u8],
    row_stride: usize,
    level: u32,
    threads: usize,
) -> (res: std::io::Result<Vec<u8>>)
    requires
        row_stride > 0,
        (filtered@.len() as int) % (row_stride as int) == 0,
        level <= 9,
    ensures
        res is Ok <==> stream_body(filtered@, row_stride as int, level, threads as int) is Some,
        res matches Ok(out) ==> out@ == zlib_header_spec(level) + stream_body(
            filtered@,
            row_stride as int,
            level,
            threads as int,
        ).unwrap() + be32(adler32_spec(filtered@)),
{
    let ghost data = filtered@;
    let ghost stride = row_stride as int;
    let header = zlib_header(level);
    let mut out: Vec<u8> = Vec::new();
    out.push(header[0]);
    out.push(header[1]);
    assert(out@ =~= zlib_header_spec(level));
    let nblocks = block_count(filtered.len(), threads);
    let ghost body: Seq<u8>;
    if nblocks <= 1 {
        // Serial path: identical bytes to the ordinary encoder.
        let serial = deflate_serial(filtered, level)?;
        append_prefix(&mut out, serial.as_slice(), serial.len());
        proof {
            body = serial@;
            assert(serial@.subrange(0, serial@.len() as int) =~= serial@);
        }
    } else {
        let ranges = block_ranges(filtered.len(), row_stride, nblocks);
        proof {
            lemma_block_plan_tiles(data.len() as int, stride, nblocks as int);
            lemma_block_count_bounds(data.len(), threads as nat);
            assert(data.len() >= row_stride) by (nonlinear_arith)
                requires
                    data.len() >= 2 * PAR_MIN_BLOCK,
                    (data.len() as int) % (row_stride as int) == 0,
                    row_stride > 0;
            assert forall|j: int| 0 <= j < ranges@.len() implies #[trigger] ranges@[j].0
                <= ranges@[j].1 <= filtered@.len() by {
                assert(ranges@[j].0 == plan_start(data.len() as int, stride, nblocks as int, j));
                assert(plan_start(data.len() as int, stride, nblocks as int, j) < plan_end(
                    data.len() as int,
                    stride,
                    nblocks as int,
                    j,
                ));
            }
        }
        let last = ranges.len() - 1;
        let mut i: usize = 0;
        while i < ranges.len()
            invariant
                data == filtered@,
                stride == row_stride,
                nblocks as int == block_count_spec(data.len() as int, threads as int),
                nblocks > 1,
                is_block_plan(ranges@, data.len() as int, stride, nblocks as int),
                forall|j: int|
                    0 <= j < ranges@.len() ==> #[trigger] ranges@[j].0 <= ranges@[j].1
                        <= filtered@.len(),
                last == ranges@.len() - 1,
                i <= ranges@.len(),
                level <= 9,
                split_body(data, stride, level, nblocks as int, i as int) is Some,
                out@ == zlib_header_spec(level) + split_body(
                    data,
                    stride,
                    level,
                    nblocks as int,
                    i as int,
                ).unwrap(),
            decreases ranges@.len() - i,
        {
            let (a, b) = ranges[i];
            proof {
                assert(ranges@[i as int].0 == plan_start(data.len() as int, stride, nblocks as int, i as int));
            }
            let chunk = slice_subrange(filtered, a, b);
            let part = match compress_block(chunk, level, i == last) {
                Ok(p) => p,
                Err(e) => {
                    proof {
                        assert(split_block(data, stride, level, nblocks as int, i as int) is None);
                        lemma_split_body_fails(
                            data,
                            stride,
                            level,
                            nblocks as int,
                            i as int,
                            plan_len(data.len() as int, stride, nblocks as int),
                        );
                        assert(nblocks as int == block_count_spec(data.len() as int, threads as int));
                        assert(stream_body(data, stride, level, threads as int) == split_body(
                            data,
                            stride,
                            level,
                            nblocks as int,
                            plan_len(data.len() as int, stride, nblocks as int),
                        ));
                    }
                    return Err(e);
                },
            };
            let ghost front = out@;
            append_prefix(&mut out, part.as_slice(), part.len());
            proof {
                assert(split_block(data, stride, level, nblocks as int, i as int) == Some(part@));
                assert(part@.subrange(0, part@.len() as int) =~= part@);
                assert(out@ =~= zlib_header_spec(level) + split_body(
                    data,
                    stride,
                    level,
                    nblocks as int,
                    i + 1,
                ).unwrap());
            }
            i = i + 1;
        }
        proof {
            body = split_body(data, stride, level, nblocks as int, i as int).unwrap();
        }
    }
    assert(stream_body(data, stride, level, threads as int) == Some(body));
    assert(out@ == zlib_header_spec(level) + body);
    let trailer = zlib_trailer(filtered);
    append_prefix(&mut out, trailer.as_slice(), 4);
    assert(trailer@.subrange(0, 4) =~= trailer@);
    assert(out@ =~= zlib_header_spec(level) + body + be32(adler32_spec(filtered@)));
    Ok(out)
}

} // verus!
