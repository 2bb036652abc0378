//! Compression: which codec letters name a compression, which of them this
//! reader decodes, and the bounded decoding of one compressed stream, either
//! whole or as a sequence of independently compressed blocks.

use std::io::Read;

use vstd::prelude::*;
use vstd::string::StringExecFns;

use crate::text::{chars_to_string, decimal, push_str, push_u64};
use crate::wire::{
    DarError, Fault, corrupt, corrupt_str, hex_byte, lemma_not_extension_like,
    lemma_readers_plain, not_nad, push_hex_byte, read_infinint, read_u8,
    res_view, spec_read_infinint, spec_read_u8,
};

verus! {

/// ASCII lowercase of a byte (other bytes unchanged).
pub open spec fn ascii_lower(b: u8) -> u8 {
    if 65 <= b <= 90 {
        (b + 32) as u8
    } else {
        b
    }
}

pub fn to_lower(b: u8) -> (r: u8)
    ensures
        r == ascii_lower(b),
{
    if 65 <= b && b <= 90 {
        b + 32
    } else {
        b
    }
}

/// Whether a DAR codec letter names a compression (either case: lowercase
/// is streamed, uppercase per-block): `z` gzip, `y` bzip2, `x` xz, `l`/`j`/`k`
/// lzo variants, `d` zstd, `q` lz4. Any other byte, `n` among them, means the
/// data is stored as is.
pub open spec fn spec_is_compressed(algo: u8) -> bool {
    let l = ascii_lower(algo);
    l == 0x7a || l == 0x79 || l == 0x78 || l == 0x6c || l == 0x6a || l == 0x6b || l == 0x64
        || l == 0x71
}

pub fn is_compressed(algo: u8) -> (b: bool)
    ensures
        b == spec_is_compressed(algo),
{
    let l = to_lower(algo);
    l == 0x7a || l == 0x79 || l == 0x78 || l == 0x6c || l == 0x6a || l == 0x6b || l == 0x64
        || l == 0x71
}

/// The codec letter, as stored, when it names a compression this reader
/// recognises but does not decode: the lzo variants (`l`/`j`/`k`).
pub open spec fn spec_unsupported_codec(algo: u8) -> Option<char> {
    let l = ascii_lower(algo);
    if l == 0x6c || l == 0x6a || l == 0x6b {
        Some(algo as char)
    } else {
        None
    }
}

pub fn unsupported_codec(algo: u8) -> (r: Option<char>)
    ensures
        r == spec_unsupported_codec(algo),
{
    let l = to_lower(algo);
    if l == 0x6c || l == 0x6a || l == 0x6b {
        Some(algo as char)
    } else {
        None
    }
}

// ── outside decoders ────────────────────────────────────────────────────────

/// What flate2's zlib decoder yields for `input`, read through `take(limit)`:
/// the decoded bytes, or the decoder's error text.
pub uninterp spec fn zlib_inflate(input: Seq<u8>, limit: u64) -> Result<Seq<u8>, Seq<char>>;

/// What bzip2-rs's decoder yields for `input`, read through `take(limit)`.
pub uninterp spec fn bzip2_inflate(input: Seq<u8>, limit: u64) -> Result<Seq<u8>, Seq<char>>;

/// What ruzstd's `StreamingDecoder` yields for `input`, read through
/// `take(limit)`: the decoded bytes, or the error text of the frame header or
/// of the read.
pub uninterp spec fn zstd_inflate(input: Seq<u8>, limit: u64) -> Result<Seq<u8>, Seq<char>>;

/// What lz4_flex's block decoder (`block::decompress_into`) yields for
/// `input` into an output buffer of `cap` bytes: the bytes written, or the
/// error text.
pub uninterp spec fn lz4_block(input: Seq<u8>, cap: usize) -> Result<Seq<u8>, Seq<char>>;

/// What lzma-rs's `xz_decompress` writes for `input`, and how it ended: `None`
/// on success; `Some((true, m))` for its `XzError(m)`; `Some((false, m))` for
/// any other error, `m` being the error's display text.
pub uninterp spec fn xz_run(input: Seq<u8>) -> (Seq<u8>, Option<(bool, Seq<char>)>);

/// The end of an xz decoding run.
pub struct XzRun {
    pub out: Vec<u8>,
    pub failure: Option<(bool, String)>,
}

pub open spec fn xz_failure_view(f: Option<(bool, String)>) -> Option<(bool, Seq<char>)> {
    match f {
        Some((b, m)) => Some((b, m@)),
        None => None,
    }
}

/// Decodes a zlib stream with `flate2::read::ZlibDecoder`, reading at most
/// `limit` decoded bytes (`Read::take`). Trusted: the result is the named
/// function of the input and the limit, and a decoded result holds at most
/// `limit` bytes.
#[verifier::external_body]
fn zlib_decode(input: &[u8], limit: u64) -> (r: Result<Vec<u8>, String>)
    ensures
        match r {
            Ok(v) => zlib_inflate(input@, limit) == Ok::<Seq<u8>, Seq<char>>(v@) && v@.len() <= limit,
            Err(m) => zlib_inflate(input@, limit) == Err::<Seq<u8>, Seq<char>>(m@),
        },
{
    let mut out = Vec::new();
    match flate2::read::ZlibDecoder::new(input).take(limit).read_to_end(&mut out) {
        Ok(_) => Ok(out),
        Err(e) => Err(e.to_string()),
    }
}

/// Decodes a bzip2 stream with `bzip2_rs::DecoderReader`, reading at most
/// `limit` decoded bytes (`Read::take`). Trusted: the result is the named
/// function of the input and the limit, and a decoded result holds at most
/// `limit` bytes.
#[verifier::external_body]
fn bzip2_decode(input: &[u8], limit: u64) -> (r: Result<Vec<u8>, String>)
    ensures
        match r {
            Ok(v) => bzip2_inflate(input@, limit) == Ok::<Seq<u8>, Seq<char>>(v@) && v@.len() <= limit,
            Err(m) => bzip2_inflate(input@, limit) == Err::<Seq<u8>, Seq<char>>(m@),
        },
{
    let mut out = Vec::new();
    match bzip2_rs::DecoderReader::new(input).take(limit).read_to_end(&mut out) {
        Ok(_) => Ok(out),
        Err(e) => Err(e.to_string()),
    }
}

/// Decodes a zstd frame with `ruzstd::decoding::StreamingDecoder` (which
/// refuses frames whose window exceeds its default limit), reading at most
/// `limit` decoded bytes (`Read::take`). Trusted: the result is the named
/// function of the input and the limit, and a decoded result holds at most
/// `limit` bytes.
#[verifier::external_body]
fn zstd_decode(input: &[u8], limit: u64) -> (r: Result<Vec<u8>, String>)
    ensures
        match r {
            Ok(v) => zstd_inflate(input@, limit) == Ok::<Seq<u8>, Seq<char>>(v@) && v@.len() <= limit,
            Err(m) => zstd_inflate(input@, limit) == Err::<Seq<u8>, Seq<char>>(m@),
        },
{
    let decoder = match ruzstd::decoding::StreamingDecoder::new(input) {
        Ok(d) => d,
        Err(e) => return Err(e.to_string()),
    };
    let mut out = Vec::new();
    match decoder.take(limit).read_to_end(&mut out) {
        Ok(_) => Ok(out),
        Err(e) => Err(e.to_string()),
    }
}

/// Decodes one raw lz4 block with `lz4_flex::block::decompress_into` into a
/// zeroed buffer of `cap` bytes, keeping the bytes it reports written.
/// Trusted: the result is the named function of the input and `cap`, and a
/// decoded block holds at most `cap` bytes (the decoder refuses to write past
/// the buffer).
#[verifier::external_body]
fn lz4_block_decode(input: &[u8], cap: usize) -> (r: Result<Vec<u8>, String>)
    ensures
        match r {
            Ok(v) => lz4_block(input@, cap) == Ok::<Seq<u8>, Seq<char>>(v@) && v@.len() <= cap,
            Err(m) => lz4_block(input@, cap) == Err::<Seq<u8>, Seq<char>>(m@),
        },
{
    let mut out = vec![0u8; cap];
    match lz4_flex::block::decompress_into(input, &mut out) {
        Ok(n) => {
            out.truncate(n);
            Ok(out)
        },
        Err(e) => Err(e.to_string()),
    }
}

/// Whether the 4-byte word at `4 * k` is `FF FF FF FF`.
pub open spec fn word_all_ones(input: Seq<u8>, k: int) -> bool {
    &&& 0 <= k
    &&& 4 * k + 4 <= input.len()
    &&& input[4 * k] == 0xFF
    &&& input[4 * k + 1] == 0xFF
    &&& input[4 * k + 2] == 0xFF
    &&& input[4 * k + 3] == 0xFF
}

/// Whether some 4-aligned word of the stream is all ones. lzma-rs reads the
/// stream footer's backward size at such an offset (header, blocks and index
/// are each padded to a multiple of four) and computes `(size + 1) << 2` in
/// 32 bits before any check, which overflows on `0xFFFFFFFF`.
pub open spec fn has_all_ones_word(input: Seq<u8>) -> bool {
    exists|k: int| word_all_ones(input, k)
}

/// Decodes an xz stream with `lzma_rs::xz_decompress` into a vector. Trusted:
/// the bytes written and the way the run ended are the named function of the
/// input. The decoder writes without a bound and holds each block whole in
/// memory before writing it; the caller checks the length afterwards, so the
/// bound limits what is returned, not what is decoded. The `requires` keeps out the streams on which the footer arithmetic would
/// overflow.
#[verifier::external_body]
fn xz_decode(input: &[u8]) -> (r: XzRun)
    requires
        !has_all_ones_word(input@),
    ensures
        xz_run(input@) == (r.out@, xz_failure_view(r.failure)),
{
    let mut out = Vec::new();
    let mut br = std::io::BufReader::new(input);
    let failure = match lzma_rs::xz_decompress(&mut br, &mut out) {
        Ok(()) => None,
        Err(lzma_rs::error::Error::XzError(m)) => Some((true, m)),
        Err(e) => Some((false, e.to_string())),
    };
    XzRun { out, failure }
}

// ── decoding ────────────────────────────────────────────────────────────────

/// Largest decoded size asked of a decoder for a bound `max`: one byte more,
/// so that going over the bound shows.
pub open spec fn probe_limit(max: u64) -> u64 {
    if max < u64::MAX {
        (max + 1) as u64
    } else {
        max
    }
}

pub open spec fn bound_msg() -> Seq<char> {
    "decompressed data exceeds bound"@
}

pub open spec fn xz_refused() -> Seq<char> {
    "aligned all-ones word in stream"@
}

pub open spec fn xz_trailing() -> Seq<char> {
    "Unexpected data after last XZ block"@
}

/// Decoded bytes of a `Read`-style decoder, checked against the bound.
pub open spec fn bounded(r: Result<Seq<u8>, Seq<char>>, max: u64, prefix: Seq<char>) -> Result<Seq<u8>, Fault> {
    match r {
        Err(m) => Err(Fault::Corrupt(prefix + m)),
        Ok(v) => if v.len() > max {
            Err(Fault::Corrupt(prefix + bound_msg()))
        } else {
            Ok(v)
        },
    }
}

/// Decode one compressed stream named by the lowercase codec letter `l`,
/// producing at most `max` bytes: zlib (`z`), bzip2 (`y`) and zstd (`d`) through a reader
/// capped one byte past `max`, xz (`x`) decoded whole and then checked. An xz
/// stream holding an all-ones 4-aligned word is refused before decoding. Bytes
/// after the end of the codec stream are ignored (lzma-rs reports them as an
/// error after a complete stream, which counts as success).
pub open spec fn spec_decode_stream(input: Seq<u8>, l: u8, max: u64) -> Result<Seq<u8>, Fault> {
    if l == 0x7a {
        bounded(zlib_inflate(input, probe_limit(max)), max, "zlib decode failed: "@)
    } else if l == 0x79 {
        bounded(bzip2_inflate(input, probe_limit(max)), max, "bzip2 decode failed: "@)
    } else if l == 0x64 {
        bounded(zstd_inflate(input, probe_limit(max)), max, "zstd decode failed: "@)
    } else if l == 0x78 && has_all_ones_word(input) {
        Err(Fault::Corrupt("xz decode failed: "@ + xz_refused()))
    } else if l == 0x78 {
        let (out, end) = xz_run(input);
        let done = match end {
            None => true,
            Some((is_xz, m)) => is_xz && m == xz_trailing(),
        };
        if done {
            if out.len() > max {
                Err(Fault::Corrupt("xz decode failed: io error: "@ + bound_msg()))
            } else {
                Ok(out)
            }
        } else {
            match end {
                Some((true, m)) => Err(Fault::Corrupt("xz decode failed: xz error: "@ + m)),
                Some((false, m)) => Err(Fault::Corrupt("xz decode failed: "@ + m)),
                None => Ok(out),
            }
        }
    } else {
        Err(Fault::Corrupt("unsupported compression '"@ + seq![l as char] + "'"@))
    }
}

/// Whether a codec letter selects per-block compression: any uppercase
/// letter, and lz4 (`q` or `Q`), which dar only writes in blocks.
pub open spec fn block_mode(algo: u8) -> bool {
    (65 <= algo <= 90) || ascii_lower(algo) == 0x71
}

pub fn is_block_mode(algo: u8) -> (b: bool)
    ensures
        b == block_mode(algo),
{
    (65 <= algo && algo <= 90) || to_lower(algo) == 0x71
}

/// Output buffer offered to the lz4 block decoder: one byte past the bound,
/// but no more than an lz4 block of `len` bytes can expand to (each input
/// byte at most 255 output bytes, plus a constant).
pub open spec fn lz4_cap(len: nat, budget: u64) -> usize {
    let most: int = if len <= 72057594037927935 {
        (len * 256 + 64) as int
    } else {
        u64::MAX as int
    };
    let c: int = if (probe_limit(budget) as int) < most {
        probe_limit(budget) as int
    } else {
        most
    };
    if c > usize::MAX {
        usize::MAX
    } else {
        c as usize
    }
}

/// One data block decoded under the remaining bound.
pub open spec fn spec_decode_block(payload: Seq<u8>, l: u8, budget: u64) -> Result<Seq<u8>, Fault> {
    if l == 0x71 {
        bounded(lz4_block(payload, lz4_cap(payload.len(), budget)), budget, "lz4 decode failed: "@)
    } else {
        spec_decode_stream(payload, l, budget)
    }
}

pub open spec fn eob_size_msg(n: u64) -> Seq<char> {
    "end-of-blocks marker with nonzero size "@ + decimal(n as nat)
}

pub open spec fn zero_block_msg() -> Seq<char> {
    "zero-size data block"@
}

pub open spec fn block_over_msg(n: u64, rem: nat) -> Seq<char> {
    "block size "@ + decimal(n as nat) + " exceeds remaining input "@ + decimal(rem)
}

pub open spec fn unknown_block_msg(t: u8) -> Seq<char> {
    "unknown compressed block type "@ + hex_byte(t)
}

/// A block stream from `p` on, `acc` already decoded: each frame is a type
/// byte and an infinint size; type 1 carries that many bytes of one
/// compressed block, type 2 (with size 0) ends the stream; any other type is
/// refused. The blocks' output is concatenated, at most `max` bytes in all.
pub open spec fn spec_decode_blocks(d: Seq<u8>, p: int, l: u8, max: u64, acc: Seq<u8>) -> Result<Seq<u8>, Fault>
    decreases d.len() - p,
{
    match spec_read_u8(d, p) {
        Err(e) => Err(e),
        Ok((t, q)) => match spec_read_infinint(d, q) {
            Err(e) => Err(e),
            Ok((n, q2)) => if t == 2 {
                if n != 0 {
                    Err(Fault::Corrupt(eob_size_msg(n)))
                } else {
                    Ok(acc)
                }
            } else if t == 1 {
                if n == 0 {
                    Err(Fault::Corrupt(zero_block_msg()))
                } else if n > d.len() - q2 {
                    Err(Fault::Corrupt(block_over_msg(n, (d.len() - q2) as nat)))
                } else {
                    match spec_decode_block(d.subrange(q2, q2 + n), l, (max - acc.len()) as u64) {
                        Err(e) => Err(e),
                        Ok(v) => spec_decode_blocks(d, q2 + n, l, max, acc + v),
                    }
                }
            } else {
                Err(Fault::Corrupt(unknown_block_msg(t)))
            },
        },
    }
}

/// Decode the data named by the codec letter `algo`, producing at most `max`
/// bytes: lzo is refused; per-block codecs are decoded frame by frame; the
/// others as one stream.
pub open spec fn spec_decode(input: Seq<u8>, algo: u8, max: u64) -> Result<Seq<u8>, Fault> {
    let l = ascii_lower(algo);
    if spec_unsupported_codec(algo) is Some {
        Err(Fault::Corrupt("unsupported compression '"@ + seq![l as char] + "'"@))
    } else if block_mode(algo) {
        spec_decode_blocks(input, 0, l, max, Seq::empty())
    } else {
        spec_decode_stream(input, l, max)
    }
}

fn find_all_ones_word(input: &[u8]) -> (b: bool)
    ensures
        b == has_all_ones_word(input@),
{
    let n = input.len();
    let mut i: usize = 0;
    while i <= n && n - i >= 4
        invariant
            n == input@.len(),
            i % 4 == 0,
            i <= n,
            forall|k: int| 0 <= k && 4 * k < i ==> !word_all_ones(input@, k),
        decreases n + 4 - i,
    {
        if input[i] == 0xFF && input[i + 1] == 0xFF && input[i + 2] == 0xFF && input[i + 3] == 0xFF {
            assert(word_all_ones(input@, (i / 4) as int));
            return true;
        }
        assert(!word_all_ones(input@, (i / 4) as int));
        i = i + 4;
    }
    assert forall|k: int| !word_all_ones(input@, k) by {
        if 0 <= k && 4 * k < i {
        }
    }
    false
}

fn failure_with(prefix: &str, m: &String) -> (e: DarError)
    ensures
        e@ == Fault::Corrupt(prefix@ + m@),
{
    let mut v: Vec<char> = Vec::new();
    push_str(&mut v, prefix);
    push_str(&mut v, m.as_str());
    corrupt(&v)
}

fn check_bound(r: Result<Vec<u8>, String>, max: u64, prefix: &str) -> (o: Result<Vec<u8>, DarError>)
    ensures
        match o {
            Ok(v) => bounded(match r { Ok(v) => Ok(v@), Err(m) => Err(m@) }, max, prefix@) == Ok::<Seq<u8>, Fault>(v@),
            Err(e) => bounded(match r { Ok(v) => Ok(v@), Err(m) => Err(m@) }, max, prefix@) == Err::<Seq<u8>, Fault>(e@),
        },
{
    match r {
        Err(m) => Err(failure_with(prefix, &m)),
        Ok(v) => {
            if v.len() as u64 > max {
                let bound = String::from_str("decompressed data exceeds bound");
                Err(failure_with(prefix, &bound))
            } else {
                Ok(v)
            }
        },
    }
}

/// Decode one whole compressed stream, named by its lowercase codec letter,
/// producing at most `max` bytes.
fn decode_whole(input: &[u8], l: u8, max: u64) -> (r: Result<Vec<u8>, DarError>)
    ensures
        match r {
            Ok(v) => spec_decode_stream(input@, l, max) == Ok::<Seq<u8>, Fault>(v@),
            Err(e) => spec_decode_stream(input@, l, max) == Err::<Seq<u8>, Fault>(e@),
        },
{
    let limit = if max < u64::MAX {
        max + 1
    } else {
        max
    };
    assert(limit == probe_limit(max));
    if l == 0x7a {
        let z = zlib_decode(input, limit);
        assert((match z { Ok(v) => Ok(v@), Err(m) => Err(m@) }) == zlib_inflate(input@, probe_limit(max)));
        check_bound(z, max, "zlib decode failed: ")
    } else if l == 0x79 {
        let z = bzip2_decode(input, limit);
        assert((match z { Ok(v) => Ok(v@), Err(m) => Err(m@) }) == bzip2_inflate(input@, probe_limit(max)));
        check_bound(z, max, "bzip2 decode failed: ")
    } else if l == 0x64 {
        let z = zstd_decode(input, limit);
        assert((match z { Ok(v) => Ok(v@), Err(m) => Err(m@) }) == zstd_inflate(input@, probe_limit(max)));
        check_bound(z, max, "zstd decode failed: ")
    } else if l == 0x78 && find_all_ones_word(input) {
        let refused = String::from_str("aligned all-ones word in stream");
        Err(failure_with("xz decode failed: ", &refused))
    } else if l == 0x78 {
        let run = xz_decode(input);
        let XzRun { out, failure } = run;
        let done = match &failure {
            None => true,
            Some((is_xz, m)) => {
                let trailing = String::from_str("Unexpected data after last XZ block");
                *is_xz && *m == trailing
            },
        };
        if done {
            if out.len() as u64 > max {
                let bound = String::from_str("decompressed data exceeds bound");
                Err(failure_with("xz decode failed: io error: ", &bound))
            } else {
                Ok(out)
            }
        } else {
            match failure {
                Some((true, m)) => Err(failure_with("xz decode failed: xz error: ", &m)),
                Some((false, m)) => Err(failure_with("xz decode failed: ", &m)),
                None => Ok(out),
            }
        }
    } else {
        let mut v: Vec<char> = Vec::new();
        push_str(&mut v, "unsupported compression '");
        v.push(l as char);
        push_str(&mut v, "'");
        assert(v@ =~= "unsupported compression '"@ + seq![l as char] + "'"@);
        Err(corrupt(&v))
    }
}

fn lz4_cap_exec(len: usize, budget: u64) -> (c: usize)
    ensures
        c == lz4_cap(len as nat, budget),
{
    let n = len as u64;
    let most: u64 = if n <= 72057594037927935 {
        n * 256 + 64
    } else {
        u64::MAX
    };
    let probe = if budget < u64::MAX {
        budget + 1
    } else {
        budget
    };
    let c = if probe < most {
        probe
    } else {
        most
    };
    if c as u128 > usize::MAX as u128 {
        usize::MAX
    } else {
        c as usize
    }
}

/// Decode one data block under the remaining bound.
fn decode_block(payload: &[u8], l: u8, budget: u64) -> (r: Result<Vec<u8>, DarError>)
    ensures
        match r {
            Ok(v) => spec_decode_block(payload@, l, budget) == Ok::<Seq<u8>, Fault>(v@),
            Err(e) => spec_decode_block(payload@, l, budget) == Err::<Seq<u8>, Fault>(e@),
        },
{
    if l == 0x71 {
        let cap = lz4_cap_exec(payload.len(), budget);
        let z = lz4_block_decode(payload, cap);
        assert((match z { Ok(v) => Ok(v@), Err(m) => Err(m@) }) == lz4_block(payload@, lz4_cap(payload@.len(), budget)));
        check_bound(z, budget, "lz4 decode failed: ")
    } else {
        decode_whole(payload, l, budget)
    }
}

/// Every block decodes within the bound it is given.
proof fn lemma_block_within(payload: Seq<u8>, l: u8, budget: u64)
    ensures
        spec_decode_block(payload, l, budget) matches Ok(v) ==> v.len() <= budget,
{
}

fn block_error(m: &Vec<char>) -> (e: DarError)
    ensures
        e@ == Fault::Corrupt(m@),
{
    corrupt(m)
}

/// Decode a block stream (see `spec_decode_blocks`) from its start.
fn decode_blocks(input: &[u8], l: u8, max: u64) -> (r: Result<Vec<u8>, DarError>)
    ensures
        match r {
            Ok(v) => spec_decode_blocks(input@, 0, l, max, Seq::empty()) == Ok::<Seq<u8>, Fault>(v@),
            Err(e) => spec_decode_blocks(input@, 0, l, max, Seq::empty()) == Err::<Seq<u8>, Fault>(e@),
        },
{
    let ghost goal = spec_decode_blocks(input@, 0, l, max, Seq::empty());
    let mut pos: u64 = 0;
    let mut acc: Vec<u8> = Vec::new();
    assert(acc@ =~= Seq::<u8>::empty());
    loop
        invariant
            pos <= input@.len(),
            acc@.len() <= max,
            goal == spec_decode_blocks(input@, 0, l, max, Seq::empty()),
            goal == spec_decode_blocks(input@, pos as int, l, max, acc@),
        decreases input@.len() - pos,
    {
        let ghost p0 = pos as int;
        let t = match read_u8(input, &mut pos) {
            Ok(t) => t,
            Err(e) => return Err(e),
        };
        let n = match read_infinint(input, &mut pos) {
            Ok(n) => n,
            Err(e) => return Err(e),
        };
        let len = input.len() as u64;
        if t == 2 {
            if n != 0 {
                let mut m: Vec<char> = Vec::new();
                push_str(&mut m, "end-of-blocks marker with nonzero size ");
                push_u64(&mut m, n);
                assert(m@ =~= eob_size_msg(n));
                return Err(block_error(&m));
            }
            return Ok(acc);
        } else if t == 1 {
            if n == 0 {
                return Err(corrupt_str("zero-size data block"));
            }
            if n > len - pos {
                let mut m: Vec<char> = Vec::new();
                push_str(&mut m, "block size ");
                push_u64(&mut m, n);
                push_str(&mut m, " exceeds remaining input ");
                push_u64(&mut m, len - pos);
                assert(m@ =~= block_over_msg(n, (input@.len() - pos) as nat));
                return Err(block_error(&m));
            }
            let s = pos as usize;
            let e = (pos + n) as usize;
            let budget = max - acc.len() as u64;
            let v = match decode_block(&input[s..e], l, budget) {
                Ok(v) => v,
                Err(err) => return Err(err),
            };
            proof {
                lemma_block_within(input@.subrange(s as int, e as int), l, budget);
            }
            let ghost before = acc@;
            let mut k: usize = 0;
            while k < v.len()
                invariant
                    k <= v@.len(),
                    acc@ == before + v@.subrange(0, k as int),
                decreases v.len() - k,
            {
                acc.push(v[k]);
                k = k + 1;
                assert(acc@ =~= before + v@.subrange(0, k as int));
            }
            assert(v@.subrange(0, v@.len() as int) =~= v@);
            pos = pos + n;
        } else {
            let mut m: Vec<char> = Vec::new();
            push_str(&mut m, "unknown compressed block type ");
            push_hex_byte(&mut m, t);
            assert(m@ =~= unknown_block_msg(t));
            return Err(block_error(&m));
        }
    }
}

/// Decode the data of one stream or block stream, producing at most `max`
/// bytes.
pub fn decode_stream(input: &[u8], algo: u8, max: u64) -> (r: Result<Vec<u8>, DarError>)
    ensures
        match r {
            Ok(v) => spec_decode(input@, algo, max) == Ok::<Seq<u8>, Fault>(v@),
            Err(e) => spec_decode(input@, algo, max) == Err::<Seq<u8>, Fault>(e@),
        },
{
    let l = to_lower(algo);
    if unsupported_codec(algo).is_some() {
        let mut v: Vec<char> = Vec::new();
        push_str(&mut v, "unsupported compression '");
        v.push(l as char);
        push_str(&mut v, "'");
        assert(v@ =~= "unsupported compression '"@ + seq![l as char] + "'"@);
        Err(corrupt(&v))
    } else if is_block_mode(algo) {
        decode_blocks(input, l, max)
    } else {
        decode_whole(input, l, max)
    }
}

/// Upper bound on an inflated catalogue (decompression-bomb guard).
pub const MAX_CATALOGUE_INFLATED: u64 = 1073741824;

/// A compressed catalogue, inflated under the catalogue bound.
pub open spec fn spec_inflate_catalogue(compressed: Seq<u8>, algo: u8) -> Result<Seq<u8>, Fault> {
    spec_decode(compressed, algo, MAX_CATALOGUE_INFLATED)
}

/// Inflate a compressed catalogue into one buffer, through the same decoder as
/// entry data, producing at most `MAX_CATALOGUE_INFLATED` bytes. Bytes after
/// the codec stream (the archive trailer) are ignored.
pub fn inflate_catalogue(compressed: &[u8], algo: u8) -> (r: Result<Vec<u8>, DarError>)
    ensures
        match r {
            Ok(v) => spec_inflate_catalogue(compressed@, algo) == Ok::<Seq<u8>, Fault>(v@),
            Err(e) => spec_inflate_catalogue(compressed@, algo) == Err::<Seq<u8>, Fault>(e@),
        },
{
    decode_stream(compressed, algo, MAX_CATALOGUE_INFLATED)
}

/// A decoded stream never exceeds the bound it was decoded under.
pub proof fn decoded_within_bound(input: Seq<u8>, algo: u8, max: u64)
    ensures
        spec_decode(input, algo, max) matches Ok(v) ==> v.len() <= max,
{
    lemma_blocks_within(input, 0, ascii_lower(algo), max, Seq::empty());
}

proof fn lemma_blocks_within(d: Seq<u8>, p: int, l: u8, max: u64, acc: Seq<u8>)
    requires
        acc.len() <= max,
    ensures
        spec_decode_blocks(d, p, l, max, acc) matches Ok(v) ==> v.len() <= max,
    decreases d.len() - p,
{
    match spec_read_u8(d, p) {
        Ok((t, q)) => match spec_read_infinint(d, q) {
            Ok((n, q2)) => if t == 1 && n != 0 && n <= d.len() - q2 {
                lemma_block_within(d.subrange(q2, q2 + n), l, (max - acc.len()) as u64);
                match spec_decode_block(d.subrange(q2, q2 + n), l, (max - acc.len()) as u64) {
                    Ok(v) => lemma_blocks_within(d, q2 + n, l, max, acc + v),
                    _ => {},
                }
            },
            _ => {},
        },
        _ => {},
    }
}


proof fn lemma_bounded_plain(r: Result<Seq<u8>, Seq<char>>, max: u64, prefix: Seq<char>)
    requires
        prefix.len() > 0,
        prefix[0] != 'u',
    ensures
        not_nad(bounded(r, max, prefix)),
{
    match r {
        Err(m) => lemma_not_extension_like(prefix, m),
        Ok(_) => lemma_not_extension_like(prefix, bound_msg()),
    }
}

proof fn lemma_stream_plain(input: Seq<u8>, l: u8, max: u64)
    ensures
        not_nad(spec_decode_stream(input, l, max)),
{
    reveal_strlit("zlib decode failed: ");
    reveal_strlit("bzip2 decode failed: ");
    reveal_strlit("zstd decode failed: ");
    reveal_strlit("xz decode failed: ");
    reveal_strlit("xz decode failed: io error: ");
    reveal_strlit("xz decode failed: xz error: ");
    reveal_strlit("unsupported compression '");
    lemma_bounded_plain(zlib_inflate(input, probe_limit(max)), max, "zlib decode failed: "@);
    lemma_bounded_plain(bzip2_inflate(input, probe_limit(max)), max, "bzip2 decode failed: "@);
    lemma_bounded_plain(zstd_inflate(input, probe_limit(max)), max, "zstd decode failed: "@);
    lemma_not_extension_like("xz decode failed: "@, xz_refused());
    lemma_not_extension_like("xz decode failed: io error: "@, bound_msg());
    let (_, end) = xz_run(input);
    match end {
        Some((_, m)) => {
            lemma_not_extension_like("xz decode failed: xz error: "@, m);
            lemma_not_extension_like("xz decode failed: "@, m);
        },
        None => {},
    }
    let u = "unsupported compression '"@ + seq![l as char] + "'"@;
    assert(u[2] == 's');
}

proof fn lemma_block_plain(payload: Seq<u8>, l: u8, budget: u64)
    ensures
        not_nad(spec_decode_block(payload, l, budget)),
{
    reveal_strlit("lz4 decode failed: ");
    lemma_bounded_plain(lz4_block(payload, lz4_cap(payload.len(), budget)), budget, "lz4 decode failed: "@);
    lemma_stream_plain(payload, l, budget);
}

proof fn lemma_blocks_not_nad(d: Seq<u8>, p: int, l: u8, max: u64, acc: Seq<u8>)
    ensures
        not_nad(spec_decode_blocks(d, p, l, max, acc)),
    decreases d.len() - p,
{
    lemma_readers_plain();
    reveal_strlit("end-of-blocks marker with nonzero size ");
    reveal_strlit("zero-size data block");
    reveal_strlit("block size ");
    reveal_strlit("unknown compressed block type ");
    match spec_read_u8(d, p) {
        Ok((t, q)) => match spec_read_infinint(d, q) {
            Ok((n, q2)) => {
                lemma_not_extension_like("end-of-blocks marker with nonzero size "@, decimal(n as nat));
                lemma_not_extension_like("zero-size data block"@, Seq::empty());
                lemma_not_extension_like(
                    "block size "@,
                    decimal(n as nat) + " exceeds remaining input "@ + decimal((d.len() - q2) as nat),
                );
                assert(block_over_msg(n, (d.len() - q2) as nat) =~= "block size "@ + (decimal(n as nat)
                    + " exceeds remaining input "@ + decimal((d.len() - q2) as nat)));
                let ub = unknown_block_msg(t);
                assert(ub[8] == 'c');
                if t == 1 && n != 0 && n <= d.len() - q2 {
                    lemma_block_plain(d.subrange(q2, q2 + n), l, (max - acc.len()) as u64);
                    match spec_decode_block(d.subrange(q2, q2 + n), l, (max - acc.len()) as u64) {
                        Ok(v) => lemma_blocks_not_nad(d, q2 + n, l, max, acc + v),
                        _ => {},
                    }
                }
            },
            _ => {},
        },
        _ => {},
    }
}

/// Decoding never gives either slice-header refusal.
pub proof fn lemma_decode_not_nad(input: Seq<u8>, algo: u8, max: u64)
    ensures
        not_nad(spec_decode(input, algo, max)),
{
    reveal_strlit("unsupported compression '");
    let l = ascii_lower(algo);
    let u = "unsupported compression '"@ + seq![l as char] + "'"@;
    assert(u[2] == 's');
    lemma_blocks_not_nad(input, 0, l, max, Seq::empty());
    lemma_stream_plain(input, l, max);
}

} // verus!
