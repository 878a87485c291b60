//! What the check of the external ffmpeg concludes from its run.
use vstd::prelude::*;
use crate::text::{trim, utf8_lossy};

verus! {

/// Why ffmpeg cannot be used.
#[derive(Debug, Clone, PartialEq, Eq)]
pub enum ToolError {
    /// The executable could not be started.
    FfmpegNotFound,
    /// It started but did not run as it should; the text says how.
    FfmpegFailed(String),
}

/// What `ffmpeg -version` prints first when it works.
pub const FFMPEG_BANNER: [u8; 14] = [0x66, 0x66, 0x6d, 0x70, 0x65, 0x67, 0x20, 0x76, 0x65, 0x72, 0x73, 0x69, 0x6f, 0x6e];

/// The number of bytes `c` takes in UTF-8.
pub open spec fn utf8_width(c: char) -> int {
    let v = c as u32;
    if v < 0x80 { 1 } else if v < 0x800 { 2 } else if v < 0x10000 { 3 } else { 4 }
}

/// The longest suffix of `s` whose UTF-8 form fits in `budget` bytes.
pub open spec fn tail_within(s: Seq<char>, budget: int) -> Seq<char>
    decreases s.len(),
{
    if s.len() == 0 || utf8_width(s.last()) > budget {
        seq![]
    } else {
        tail_within(s.drop_last(), budget - utf8_width(s.last())).push(s.last())
    }
}

/// The run worked: it exited with success and printed the banner first.
pub open spec fn ffmpeg_runs(success: bool, stdout: Seq<u8>) -> bool {
    success && stdout.len() >= 14 && stdout.subrange(0, 14) == FFMPEG_BANNER@
}

/// What a failed run is reported with: the last 300 bytes of its trimmed
/// error output, cut at a character boundary, or the exit status when it
/// wrote nothing there.
pub open spec fn ffmpeg_detail(stderr: Seq<u8>, status: Seq<char>) -> Seq<char> {
    let t = trim(utf8_lossy(stderr));
    if t.len() == 0 { "ffmpeg -version exited with "@ + status } else { tail_within(t, 300) }
}

/// The number of bytes `c` takes in UTF-8.
fn width_of(c: char) -> (w: usize)
    ensures
        w == utf8_width(c),
{
    let v = c as u32;
    if v < 0x80 { 1 } else if v < 0x800 { 2 } else if v < 0x10000 { 3 } else { 4 }
}

/// The longest suffix of `s` that fits in `budget` bytes of UTF-8.
fn tail_of_chars(s: &Vec<char>, budget: usize) -> (out: Vec<char>)
    ensures
        out@ == tail_within(s@, budget as int),
{
    let mut start = s.len();
    let mut left = budget;
    assert(s@.take(start as int) =~= s@);
    assert(tail_within(s@, budget as int) + s@.subrange(start as int, s@.len() as int) =~= tail_within(s@, budget as int));
    while start > 0 && width_of(s[start - 1]) <= left
        invariant
            start <= s@.len(),
            left <= budget,
            tail_within(s@, budget as int) == tail_within(s@.take(start as int), left as int) + s@.subrange(start as int, s@.len() as int),
        decreases start,
    {
        proof {
            let t = s@.take(start as int);
            assert(t.drop_last() =~= s@.take(start - 1));
            assert(t.last() == s@[start - 1]);
            assert(tail_within(s@.take(start - 1), left - utf8_width(s@[start - 1])).push(s@[start - 1])
                + s@.subrange(start as int, s@.len() as int)
                =~= tail_within(s@.take(start - 1), left - utf8_width(s@[start - 1])) + s@.subrange(start - 1, s@.len() as int));
        }
        left = left - width_of(s[start - 1]);
        start = start - 1;
    }
    proof {
        if start > 0 {
            assert(s@.take(start as int).last() == s@[start - 1]);
        }
        assert(tail_within(s@.take(start as int), left as int) =~= Seq::<char>::empty());
        assert(Seq::<char>::empty() + s@.subrange(start as int, s@.len() as int) =~= s@.subrange(start as int, s@.len() as int));
    }
    let mut out: Vec<char> = Vec::new();
    let mut i = start;
    while i < s.len()
        invariant
            start <= i <= s@.len(),
            out@ == s@.subrange(start as int, i as int),
        decreases s@.len() - i,
    {
        out.push(s[i]);
        i = i + 1;
        assert(out@ =~= s@.subrange(start as int, i as int));
    }
    out
}

/// Whether `bytes` begins with `prefix`.
fn starts_with(bytes: &[u8], prefix: &[u8]) -> (r: bool)
    ensures
        r == (bytes@.len() >= prefix@.len() && bytes@.subrange(0, prefix@.len() as int) == prefix@),
{
    if bytes.len() < prefix.len() {
        return false;
    }
    let mut i: usize = 0;
    while i < prefix.len()
        invariant
            i <= prefix@.len() <= bytes@.len(),
            bytes@.subrange(0, i as int) == prefix@.subrange(0, i as int),
        decreases prefix@.len() - i,
    {
        if bytes[i] != prefix[i] {
            assert(bytes@.subrange(0, prefix@.len() as int)[i as int] != prefix@[i as int]);
            return false;
        }
        i = i + 1;
        assert(bytes@.subrange(0, i as int) =~= prefix@.subrange(0, i as int));
    }
    assert(prefix@.subrange(0, i as int) =~= prefix@);
    true
}

/// What a run of `ffmpeg -version` shows: `success` is its exit status,
/// `stdout` and `stderr` what it printed, and `status` the exit status as
/// text. Only a successful run that prints the version banner first passes;
/// a binary that starts but fails (a bad code signature, a missing library)
/// is reported with the end of what it wrote to stderr.
pub fn check_ffmpeg(success: bool, stdout: &[u8], stderr: &[u8], status: &str) -> (r: Result<(), ToolError>)
    ensures
        ffmpeg_runs(success, stdout@) ==> r is Ok,
        !ffmpeg_runs(success, stdout@) ==> (r matches Err(ToolError::FfmpegFailed(d)) && d@ == ffmpeg_detail(stderr@, status@)),
{
    let banner = FFMPEG_BANNER;
    if success && starts_with(stdout, banner.as_slice()) {
        return Ok(());
    }
    let text = crate::text::from_utf8_lossy(stderr);
    let cs = crate::text::chars_of(text.as_str());
    let t = crate::text::trim_chars(cs.as_slice(), 0, cs.len());
    assert(cs@.subrange(0, cs@.len() as int) =~= cs@);
    if t.len() == 0 {
        let prefix = "ffmpeg -version exited with ";
        let detail = crate::text::concat_str(prefix, status);
        return Err(ToolError::FfmpegFailed(detail));
    }
    let tail = tail_of_chars(&t, 300);
    Err(ToolError::FfmpegFailed(crate::text::string_from_chars(tail.as_slice())))
}

}
