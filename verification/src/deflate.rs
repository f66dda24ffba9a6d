//! The calls into `flate2`: a raw DEFLATE compressor driven one step at a
//! time, the streaming DEFLATE encoder over a `Vec`, and the conversion of
//! their errors into `std::io::Error`.
//!
//! What a compressor produces is named, not spelt out: [`deflate_run`] is
//! what a raw DEFLATE compressor at a level has emitted and taken after a
//! given sequence of calls, and [`deflate_encoder_output`] what the streaming
//! encoder hands back after a given sequence of writes. Each compressor
//! value carries, as ghost state, the level it was made with and the calls
//! or writes it has seen.

use vstd::prelude::*;

verus! {

/// `flate2::Compress`, a raw in-memory compression stream; opaque here.
#[verifier::external_type_specification]
#[verifier::external_body]
pub struct ExCompress(flate2::Compress);

/// `flate2::CompressError`, what a failed compression step reports; opaque
/// here.
#[verifier::external_type_specification]
#[verifier::external_body]
pub struct ExCompressError(flate2::CompressError);

/// `std::io::Error`, the error type of the compressing functions; opaque
/// here.
#[verifier::external_type_specification]
#[verifier::external_body]
pub struct ExIoError(std::io::Error);

/// One call of a raw compressor as the names record it: the input offered,
/// the room in the output buffer, and the flush code.
pub type DeflateCall = (Seq<u8>, nat, u8);

/// Flush code: let the compressor buffer.
pub const FLUSH_NONE: u8 = 0;

/// Flush code: end the current block on a byte boundary and reset the
/// dictionary.
pub const FLUSH_FULL: u8 = 3;

/// Flush code: end the stream.
pub const FLUSH_FINISH: u8 = 4;

/// Status code: the call went through; more may remain.
pub const STATUS_PROGRESS: u8 = 0;

/// Status code: no progress was possible.
pub const STATUS_BUF_ERROR: u8 = 1;

/// Status code: the stream is complete.
pub const STATUS_STREAM_END: u8 = 2;

/// What a raw DEFLATE compressor (no zlib wrapper) made at `level` has done
/// after the calls `calls`, in order: every byte it has emitted, how many
/// input bytes it has taken, and the status of the last call.
pub uninterp spec fn deflate_run(level: u32, calls: Seq<(Seq<u8>, nat, u8)>) -> (Seq<u8>, nat, u8);

/// The bytes that `flate2::write::DeflateEncoder` over an empty `Vec`, made
/// at `level`, hands back from `finish` after the writes `writes`, in order.
pub uninterp spec fn deflate_encoder_output(level: u32, writes: Seq<Seq<u8>>) -> Seq<u8>;

/// How a compression step flushes: `Buffered` lets the compressor buffer,
/// `Full` ends the current block on a byte boundary and resets the
/// dictionary, `Finish` ends the stream.
#[derive(Clone, Copy)]
pub enum FlushMode {
    Buffered,
    Full,
    Finish,
}

/// The flush code of a flush mode.
pub open spec fn flush_code(f: FlushMode) -> u8 {
    match f {
        FlushMode::Buffered => FLUSH_NONE,
        FlushMode::Full => FLUSH_FULL,
        FlushMode::Finish => FLUSH_FINISH,
    }
}

/// What one compression step reported: more work may remain (`Progress`),
/// no progress was possible (`BufError`), or the stream is complete
/// (`StreamEnd`).
#[derive(Clone, Copy)]
pub enum StepStatus {
    Progress,
    BufError,
    StreamEnd,
}

/// The status code of a step status.
pub open spec fn status_code(s: StepStatus) -> u8 {
    match s {
        StepStatus::Progress => STATUS_PROGRESS,
        StepStatus::BufError => STATUS_BUF_ERROR,
        StepStatus::StreamEnd => STATUS_STREAM_END,
    }
}

/// A raw DEFLATE compressor together with the level it was made with and
/// the calls it has seen.
pub(crate) struct RawDeflater {
    inner: flate2::Compress,
    level: Ghost<u32>,
    calls: Ghost<Seq<DeflateCall>>,
}

impl RawDeflater {
    /// The level the compressor was made with.
    pub(crate) closed spec fn level(self) -> u32 {
        self.level@
    }

    /// The calls the compressor has seen, in order.
    pub(crate) closed spec fn calls(self) -> Seq<DeflateCall> {
        self.calls@
    }
}

/// `flate2::Compress::new(Compression::new(level), false)`: a compressor
/// that emits raw DEFLATE, without the zlib wrapper, having seen no call.
///
/// Trusted: with the `zlib-rs` backend the constructor asserts that the
/// level lies in 0..=9, hence the `requires`; a fresh compressor has emitted
/// nothing and taken nothing.
#[verifier::external_body]
pub(crate) fn raw_compressor(level: u32) -> (d: RawDeflater)
    requires
        level <= 9,
    ensures
        d.level() == level,
        d.calls() == Seq::<DeflateCall>::empty(),
        deflate_run(d.level(), d.calls()).0 == Seq::<u8>::empty(),
        deflate_run(d.level(), d.calls()).1 == 0,
{
    RawDeflater {
        inner: flate2::Compress::new(flate2::Compression::new(level), false),
        level: Ghost(level),
        calls: Ghost(Seq::empty()),
    }
}

/// `flate2::Compress::total_in`: the running count of input bytes the
/// compressor has taken.
///
/// Trusted: the count is the one the name records.
#[verifier::external_body]
pub(crate) fn compressor_total_in(d: &RawDeflater) -> (t: u64)
    requires
        deflate_run(d.level(), d.calls()).1 <= u64::MAX,
    ensures
        t == deflate_run(d.level(), d.calls()).1,
{
    d.inner.total_in()
}

/// `flate2::Compress::total_out`: the running count of bytes the compressor
/// has emitted.
///
/// Trusted: the count is the length of what the name records as emitted.
#[verifier::external_body]
pub(crate) fn compressor_total_out(d: &RawDeflater) -> (t: u64)
    requires
        deflate_run(d.level(), d.calls()).0.len() <= u64::MAX,
    ensures
        t == deflate_run(d.level(), d.calls()).0.len(),
{
    d.inner.total_out()
}

/// One call of `flate2::Compress::compress`: compresses from `input` into
/// `output` with the given flush.
///
/// Trusted, from the source of `flate2` and `zlib-rs`:
/// - the call is recorded, with the room that `output` offered;
/// - the call takes at most `input.len()` bytes of input and emits at most
///   `output.len()` bytes, which it writes to the front of `output`, whose
///   length does not change; what was emitted before stays as it was;
/// - the call fails only when a call with `Finish` came before it and it
///   does not finish itself (`deflate` returns `StreamError` then, and on no
///   other path of this use), and the status it reports is the one recorded;
/// - the running totals are `u64` counters that must not overflow, hence the
///   `requires`.
#[verifier::external_body]
pub(crate) fn compressor_step(
    d: &mut RawDeflater,
    input: &[u8],
    output: &mut Vec<u8>,
    flush: FlushMode,
) -> (r: Result<StepStatus, flate2::CompressError>)
    requires
        deflate_run(old(d).level(), old(d).calls()).0.len() + old(output)@.len() <= u64::MAX,
        deflate_run(old(d).level(), old(d).calls()).1 + input@.len() <= u64::MAX,
    ensures
        final(output)@.len() == old(output)@.len(),
        final(d).level() == old(d).level(),
        final(d).calls() == old(d).calls().push((input@, old(output)@.len(), flush_code(flush))),
        deflate_run(old(d).level(), old(d).calls()).0.len() <= deflate_run(
            final(d).level(),
            final(d).calls(),
        ).0.len() <= deflate_run(old(d).level(), old(d).calls()).0.len() + old(output)@.len(),
        deflate_run(final(d).level(), final(d).calls()).0.subrange(
            0,
            deflate_run(old(d).level(), old(d).calls()).0.len() as int,
        ) == deflate_run(old(d).level(), old(d).calls()).0,
        final(output)@.subrange(
            0,
            deflate_run(final(d).level(), final(d).calls()).0.len() - deflate_run(
                old(d).level(),
                old(d).calls(),
            ).0.len(),
        ) == deflate_run(final(d).level(), final(d).calls()).0.subrange(
            deflate_run(old(d).level(), old(d).calls()).0.len() as int,
            deflate_run(final(d).level(), final(d).calls()).0.len() as int,
        ),
        deflate_run(old(d).level(), old(d).calls()).1 <= deflate_run(
            final(d).level(),
            final(d).calls(),
        ).1 <= deflate_run(old(d).level(), old(d).calls()).1 + input@.len(),
        (flush_code(flush) == FLUSH_FINISH || forall|k: int|
            0 <= k < old(d).calls().len() ==> #[trigger] old(d).calls()[k].2 != FLUSH_FINISH) ==> r is Ok,
        r matches Ok(s) ==> status_code(s) == deflate_run(final(d).level(), final(d).calls()).2,
{
    let flush = match flush {
        FlushMode::Buffered => flate2::FlushCompress::None,
        FlushMode::Full => flate2::FlushCompress::Full,
        FlushMode::Finish => flate2::FlushCompress::Finish,
    };
    match d.inner.compress(input, output.as_mut_slice(), flush) {
        Ok(flate2::Status::Ok) => Ok(StepStatus::Progress),
        Ok(flate2::Status::BufError) => Ok(StepStatus::BufError),
        Ok(flate2::Status::StreamEnd) => Ok(StepStatus::StreamEnd),
        Err(e) => Err(e),
    }
}

/// A `flate2::write::DeflateEncoder<Vec<u8>>`: a streaming raw DEFLATE
/// encoder collecting its output in a `Vec`. Its fields are hidden; only the
/// functions below touch them.
#[verifier::external_body]
pub(crate) struct SerialEncoder {
    inner: flate2::write::DeflateEncoder<Vec<u8>>,
}

/// A streaming encoder together with the level it was made with and the
/// writes it has seen.
pub(crate) struct SerialDeflater {
    enc: SerialEncoder,
    level: Ghost<u32>,
    writes: Ghost<Seq<Seq<u8>>>,
}

impl SerialDeflater {
    /// The level the encoder was made with.
    pub(crate) closed spec fn level(self) -> u32 {
        self.level@
    }

    /// The writes the encoder has seen, in order.
    pub(crate) closed spec fn writes(self) -> Seq<Seq<u8>> {
        self.writes@
    }
}

/// `flate2::write::DeflateEncoder::new(Vec::new(), Compression::new(level))`:
/// a streaming raw DEFLATE encoder that collects its output in a `Vec`.
///
/// Trusted: the encoder builds a `Compress`, whose constructor asserts a
/// level in 0..=9 with the `zlib-rs` backend, hence the `requires`.
#[verifier::external_body]
pub(crate) fn deflate_encoder(level: u32) -> (e: SerialDeflater)
    requires
        level <= 9,
    ensures
        e.level() == level,
        e.writes() == Seq::<Seq<u8>>::empty(),
{
    SerialDeflater {
        enc: SerialEncoder {
            inner: flate2::write::DeflateEncoder::new(Vec::new(), flate2::Compression::new(level)),
        },
        level: Ghost(level),
        writes: Ghost(Seq::empty()),
    }
}

/// `std::io::Write::write_all` on a fresh encoder: feeds all of `data` to it.
///
/// Trusted: writing into a `Vec` cannot fail, and the compressor fails only
/// on a call after `Finish`, which `finish` alone makes; the write is
/// recorded. Only one write is admitted, so that the running `u64` totals
/// of the compressor stay far from overflow.
#[verifier::external_body]
pub(crate) fn deflate_encoder_write_all(e: &mut SerialDeflater, data: &[u8]) -> (r: Result<(), std::io::Error>)
    requires
        old(e).writes().len() == 0,
    ensures
        r is Ok,
        final(e).level() == old(e).level(),
        final(e).writes() == old(e).writes().push(data@),
{
    std::io::Write::write_all(&mut e.enc.inner, data)
}

/// `flate2::write::DeflateEncoder::finish`: ends the DEFLATE stream and
/// hands back the `Vec` with everything the encoder produced.
///
/// Trusted: finishing into a `Vec` cannot fail, and what comes back is what
/// the name records for the encoder's level and writes.
#[verifier::external_body]
pub(crate) fn deflate_encoder_finish(e: SerialDeflater) -> (r: Result<Vec<u8>, std::io::Error>)
    ensures
        r is Ok,
        r matches Ok(v) ==> v@ == deflate_encoder_output(e.level(), e.writes()),
{
    e.enc.inner.finish()
}

/// `std::io::Error::other` on a compressor error, as the encoder reports it.
#[verifier::external_body]
pub(crate) fn io_error_from_compress(e: flate2::CompressError) -> std::io::Error {
    std::io::Error::other(e)
}

/// `std::io::Error::other` with a message.
#[verifier::external_body]
pub(crate) fn io_error_other(msg: &str) -> std::io::Error {
    std::io::Error::other(msg)
}

} // verus!
