//! Copying an image onto a disk and reading it back.
//!
//! A failing or counterfeit disk accepts every write and returns different
//! bytes, so a write is read back and compared. The byte pump works on any
//! reader and writer, which is what lets all of it be tested against
//! in-memory buffers with no disk plugged in.

use vstd::prelude::*;

use crate::error::{Error, ErrorCode};
use crate::imaging::crc::{crc32, crc_fold, law_crc_piecewise, Crc32};
use crate::jobs::cancel::CancellationToken;
use crate::jobs::progress::Progress;
use crate::text::{decimal, decimal_string, push_str};

verus! {

/// How much is moved per read and per write: four mebibytes.
pub const CHUNK: usize = 0x40_0000;

/// The alignment a raw block device write has to satisfy.
pub const SECTOR: u64 = 512;

/// A length rounded up to a whole number of sectors, saturating rather than
/// wrapping so that a huge image never becomes a tiny write.
pub open spec fn padded(bytes: u64) -> u64 {
    let up = if bytes as int + 511 > u64::MAX as int {
        u64::MAX
    } else {
        (bytes + 511) as u64
    };
    (up / 512 * 512) as u64
}

/// Round a length up to a whole number of sectors.
pub fn pad_to_sector(bytes: u64) -> (r: u64)
    ensures
        r == padded(bytes),
{
    bytes.saturating_add(SECTOR - 1) / SECTOR * SECTOR
}

/// What happened.
#[derive(Debug, Clone, Copy, PartialEq, Eq, Structural)]
pub struct Report {
    /// Bytes of the image written, not counting padding.
    pub written: u64,
    /// CRC-32 of those bytes.
    pub checksum: u32,
    /// Bytes read back and found identical, where verification ran.
    pub verified: Option<u64>,
}

/// Why a read did not fill its buffer.
pub enum ReadFailure {
    /// The source ended first.
    Ended,
    /// The source reported an error, with its text.
    Failed(String),
}

/// Read exactly `want` bytes, as `Read::read_exact` does.
#[verifier::external_body]
fn read_exact_from<R: std::io::Read>(source: &mut R, want: usize) -> (r: Result<Vec<u8>, ReadFailure>)
    ensures
        r matches Ok(v) ==> v@.len() == want,
{
    let mut buffer = vec![0u8; want];
    match source.read_exact(&mut buffer) {
        Ok(()) => Ok(buffer),
        Err(e) if e.kind() == std::io::ErrorKind::UnexpectedEof => Err(ReadFailure::Ended),
        Err(e) => Err(ReadFailure::Failed(e.to_string())),
    }
}

/// Write all of `bytes`, as `Write::write_all` does; the error as text.
#[verifier::external_body]
fn write_all_to<W: std::io::Write>(sink: &mut W, bytes: &[u8]) -> (r: Result<(), String>) {
    sink.write_all(bytes).map_err(|e| e.to_string())
}

/// Flush, as `Write::flush` does; the error as text.
#[verifier::external_body]
fn flush_to<W: std::io::Write>(sink: &mut W) -> (r: Result<(), String>) {
    sink.flush().map_err(|e| e.to_string())
}

/// Tell the caller how far the work has got. What the callback does is its
/// own affair.
#[verifier::external_body]
fn report_progress<F: FnMut(Progress)>(on_progress: &mut F, progress: Progress) {
    on_progress(progress)
}

/// The error a failed read becomes: an image shorter than it said is
/// malformed, anything else is input and output.
fn read_error(f: ReadFailure) -> (r: Error)
    ensures
        f is Ended ==> r.spec_code() == ErrorCode::ParseFailed,
        f is Failed ==> r.spec_code() == ErrorCode::Io,
{
    match f {
        ReadFailure::Ended => Error::new(ErrorCode::ParseFailed, "the image ended before its stated length"),
        ReadFailure::Failed(text) => {
            let mut s = String::new();
            push_str(&mut s, "reading the image: ");
            push_str(&mut s, text.as_str());
            Error::with_context(ErrorCode::Io, s)
        },
    }
}

/// The error a failed write or flush becomes.
fn io_error(what: &str, text: String) -> (r: Error)
    ensures
        r.spec_code() == ErrorCode::Io,
{
    let mut s = String::new();
    push_str(&mut s, what);
    push_str(&mut s, text.as_str());
    Error::with_context(ErrorCode::Io, s)
}

/// What goes to the sink for one chunk the image gave: the chunk itself,
/// followed, for a raw device, by zeros up to the next sector boundary.
pub open spec fn sector_image(chunk: Seq<u8>, pad: bool) -> Seq<u8> {
    if pad {
        chunk + Seq::new((padded(chunk.len() as u64) - chunk.len()) as nat, |i: int| 0u8)
    } else {
        chunk
    }
}

/// The bytes to write for one chunk of the image.
pub fn sector_chunk(chunk: Vec<u8>, pad: bool) -> (r: Vec<u8>)
    requires
        chunk@.len() <= CHUNK,
    ensures
        r@ == sector_image(chunk@, pad),
{
    if !pad {
        return chunk;
    }
    let ghost start = chunk@;
    let target = pad_to_sector(chunk.len() as u64) as usize;
    proof {
        assert(padded(start.len() as u64) >= start.len()) by (nonlinear_arith)
            requires
                start.len() <= CHUNK,
                padded(start.len() as u64) == ((start.len() + 511) as u64 / 512 * 512) as u64,
        ;
    }
    let mut out = chunk;
    while out.len() < target
        invariant
            start.len() <= out@.len() <= target,
            target == padded(start.len() as u64),
            out@ == start + Seq::new((out@.len() - start.len()) as nat, |i: int| 0u8),
        decreases target - out@.len(),
    {
        out.push(0);
        proof {
            assert(out@ =~= start + Seq::new((out@.len() - start.len()) as nat, |i: int| 0u8));
        }
    }
    out
}

/// Whether `got` begins with exactly the bytes of `expected`.
pub fn same_prefix(expected: &[u8], got: &[u8]) -> (r: bool)
    requires
        expected@.len() <= got@.len(),
    ensures
        r == (expected@ == got@.take(expected@.len() as int)),
{
    let mut k: usize = 0;
    while k < expected.len()
        invariant
            k <= expected@.len() <= got@.len(),
            expected@.take(k as int) == got@.take(k as int),
        decreases expected.len() - k,
    {
        if expected[k] != got[k] {
            proof {
                if expected@ == got@.take(expected@.len() as int) {
                    assert(got@.take(expected@.len() as int)[k as int] == got@[k as int]);
                }
            }
            return false;
        }
        proof {
            assert(expected@.take(k + 1) =~= expected@.take(k as int).push(expected@[k as int]));
            assert(got@.take(k + 1) =~= got@.take(k as int).push(got@[k as int]));
        }
        k += 1;
    }
    proof {
        assert(expected@.take(k as int) =~= expected@);
    }
    true
}

/// How much is read next, with `done` of `total` bytes moved: a whole
/// chunk, or what is left.
pub open spec fn chunk_size(done: u64, total: u64) -> int {
    if total - done < CHUNK {
        total - done
    } else {
        CHUNK as int
    }
}

/// How much to read next.
pub fn next_chunk_len(done: u64, total: u64) -> (r: usize)
    requires
        done < total,
    ensures
        r as int == chunk_size(done, total),
        0 < r <= CHUNK,
{
    let left = total - done;
    if left < CHUNK as u64 {
        left as usize
    } else {
        CHUNK
    }
}

/// One chunk of a copy: fold it into the checksum, and give the bytes to
/// write for it.
pub fn copy_step(crc: &mut Crc32, chunk: Vec<u8>, pad: bool) -> (r: Vec<u8>)
    requires
        chunk@.len() <= CHUNK,
    ensures
        final(crc).state() == crc_fold(old(crc).state(), chunk@),
        r@ == sector_image(chunk@, pad),
{
    crc.update(chunk.as_slice());
    sector_chunk(chunk, pad)
}

/// The error a chunk read back differently becomes: malformed data, naming
/// the byte of the image where it starts.
pub open spec fn mismatch_text(done: u64, expected: Seq<u8>, got: Seq<u8>) -> Seq<char> {
    "the disk reads back differently from byte "@ + decimal((done + first_difference_spec(expected, got, 0)) as nat)
}

/// One chunk of a verification: the bytes read back, `got`, must begin
/// with the bytes the image holds there, `expected`; where they do not,
/// the error names the image's first byte that differs.
pub fn check_chunk(done: u64, expected: &[u8], got: &[u8]) -> (r: Result<(), Error>)
    requires
        expected@.len() <= got@.len(),
        done + expected@.len() <= u64::MAX,
    ensures
        r is Ok <==> expected@ == got@.take(expected@.len() as int),
        r matches Err(e) ==> e.spec_code() == ErrorCode::ParseFailed && e.spec_context() == mismatch_text(done, expected@, got@),
{
    if same_prefix(expected, got) {
        return Ok(());
    }
    let offset = done + first_difference(expected, got);
    let mut s = String::new();
    push_str(&mut s, "the disk reads back differently from byte ");
    let d = decimal_string(offset);
    push_str(&mut s, d.as_str());
    Err(Error::with_context(ErrorCode::ParseFailed, s))
}

/// Copy `total` bytes from `source` to `sink`, reporting progress, and
/// return the CRC-32 of what was read. With `pad` the sink gets the bytes
/// padded with zeros to a sector boundary, which a raw device needs.
///
/// A cancelled token stops it before anything is written; a source that
/// ends early is refused rather than half written.
pub fn copy<R: std::io::Read, W: std::io::Write, F: FnMut(Progress)>(
    source: &mut R,
    sink: &mut W,
    total: u64,
    pad: bool,
    on_progress: &mut F,
    cancel: &CancellationToken,
) -> (r: Result<u32, Error>)
    ensures
        r matches Ok(c) ==> exists|data: Seq<u8>| data.len() == total && c == crc32(data),
        total > 0 && cancel.fixed() == Some(true) ==> (r matches Err(e) && e.spec_code()
            == ErrorCode::Cancelled),
        r matches Err(e) ==> e.spec_code() == ErrorCode::Cancelled || e.spec_code()
            == ErrorCode::ParseFailed || e.spec_code() == ErrorCode::Io,
{
    let mut crc = Crc32::new();
    let mut done: u64 = 0;
    let ghost mut data: Seq<u8> = Seq::empty();
    report_progress(on_progress, Progress::with_total(total));
    while done < total
        invariant
            done <= total,
            data.len() == done,
            crc.state() == crc_fold(0xFFFF_FFFFu32, data),
            done > 0 ==> cancel.fixed() != Some(true),
        decreases total - done,
    {
        match cancel.check() {
            Ok(()) => {},
            Err(c) => {
                return Err(Error::from(c));
            },
        }
        let want = next_chunk_len(done, total);
        let chunk = match read_exact_from(source, want) {
            Ok(v) => v,
            Err(f) => {
                return Err(read_error(f));
            },
        };
        proof {
            law_crc_piecewise(0xFFFF_FFFFu32, data, chunk@);
        }
        let ghost piece = chunk@;
        let out = copy_step(&mut crc, chunk, pad);
        proof {
            data = data + piece;
        }
        let written = write_all_to(sink, out.as_slice());
        match written {
            Ok(()) => {},
            Err(text) => {
                return Err(io_error("writing to the disk: ", text));
            },
        }
        done = done + want as u64;
        report_progress(on_progress, Progress::with_total(total).set_completed(done));
    }
    match flush_to(sink) {
        Ok(()) => {},
        Err(text) => {
            return Err(io_error("flushing the disk: ", text));
        },
    }
    Ok(crc.finish())
}

/// Where two equal-length slices first differ; 0 when they do not.
pub open spec fn first_difference_spec(a: Seq<u8>, b: Seq<u8>, i: int) -> int
    decreases a.len() - i,
{
    if i < 0 || i >= a.len() || i >= b.len() {
        0
    } else if a[i] != b[i] {
        i
    } else {
        first_difference_spec(a, b, i + 1)
    }
}

/// Where two slices first differ: the offset tells which kind of failure it
/// was, since a counterfeit stick diverges where it wraps.
pub fn first_difference(a: &[u8], b: &[u8]) -> (r: u64)
    ensures
        r as int == first_difference_spec(a@, b@, 0),
        r as int <= a@.len(),
{
    let mut i: usize = 0;
    while i < a.len() && i < b.len()
        invariant
            i <= a@.len(),
            first_difference_spec(a@, b@, 0) == first_difference_spec(a@, b@, i as int),
        decreases a.len() - i,
    {
        if a[i] != b[i] {
            return i as u64;
        }
        i += 1;
    }
    0
}

/// Read `total` bytes from each of `source` and `written` and compare them.
/// With `pad`, `written` is read a whole number of sectors at a time and the
/// padding past the image is ignored. A difference is an error naming the
/// byte where it starts.
pub fn verify<R: std::io::Read, S: std::io::Read, F: FnMut(Progress)>(
    source: &mut R,
    written: &mut S,
    total: u64,
    pad: bool,
    on_progress: &mut F,
    cancel: &CancellationToken,
) -> (r: Result<u64, Error>)
    ensures
        r matches Ok(n) ==> n == total,
        total == 0 ==> r == Ok::<u64, Error>(0),
        total > 0 && cancel.fixed() == Some(true) ==> (r matches Err(e) && e.spec_code()
            == ErrorCode::Cancelled),
        r matches Err(e) ==> e.spec_code() == ErrorCode::Cancelled || e.spec_code()
            == ErrorCode::ParseFailed || e.spec_code() == ErrorCode::Io,
{
    let mut done: u64 = 0;
    report_progress(on_progress, Progress::with_total(total));
    while done < total
        invariant
            done <= total,
            done > 0 ==> cancel.fixed() != Some(true),
        decreases total - done,
    {
        match cancel.check() {
            Ok(()) => {},
            Err(c) => {
                return Err(Error::from(c));
            },
        }
        let want = next_chunk_len(done, total);
        let expected = match read_exact_from(source, want) {
            Ok(v) => v,
            Err(f) => {
                return Err(read_error(f));
            },
        };
        let read = if pad { pad_to_sector(want as u64) as usize } else { want };
        let got = match read_exact_from(written, read) {
            Ok(v) => v,
            Err(f) => {
                return Err(read_error(f));
            },
        };
        proof {
            assert(want <= read) by {
                if pad {
                    assert(padded(want as u64) >= want) by (nonlinear_arith)
                        requires
                            want <= CHUNK,
                            padded(want as u64) == ((want + 511) as u64 / 512 * 512) as u64,
                    ;
                }
            }
        }
        match check_chunk(done, expected.as_slice(), got.as_slice()) {
            Ok(()) => {},
            Err(e) => {
                return Err(e);
            },
        }
        done = done + want as u64;
        report_progress(on_progress, Progress::with_total(total).set_completed(done));
    }
    Ok(done)
}

} // verus!
