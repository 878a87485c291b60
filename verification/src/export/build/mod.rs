//! From the planned tracks to the database model.
use vstd::prelude::*;
use crate::text::ascii_lower;
use super::pdb::rows::{FILE_TYPE_AIFF, FILE_TYPE_ALAC, FILE_TYPE_FLAC, FILE_TYPE_M4A, FILE_TYPE_MP3, FILE_TYPE_WAV};

pub mod model;

verus! {

/// What follows the last `.` of `s`; all of `s` when it has none.
pub open spec fn after_last_dot(s: Seq<char>) -> Seq<char>
    decreases s.len(),
{
    if s.len() == 0 {
        s
    } else if s.last() == '.' {
        seq![]
    } else {
        after_last_dot(s.drop_last()).push(s.last())
    }
}

/// The file type of a track: the extension decides; `Kind` only tells ALAC
/// from AAC inside an MP4 and covers files without a known extension.
pub open spec fn spec_file_type(kind: Seq<char>, file_name: Seq<char>) -> u16 {
    let ext = ascii_lower(after_last_dot(file_name));
    if ext == "mp3"@ {
        FILE_TYPE_MP3
    } else if ext == "m4a"@ || ext == "aac"@ || ext == "mp4"@ {
        if kind == "ALAC File"@ { FILE_TYPE_ALAC } else { FILE_TYPE_M4A }
    } else if ext == "flac"@ {
        FILE_TYPE_FLAC
    } else if ext == "wav"@ {
        FILE_TYPE_WAV
    } else if ext == "aif"@ || ext == "aiff"@ {
        FILE_TYPE_AIFF
    } else if kind == "MP3 File"@ {
        FILE_TYPE_MP3
    } else if kind == "M4A File"@ {
        FILE_TYPE_M4A
    } else if kind == "FLAC File"@ {
        FILE_TYPE_FLAC
    } else if kind == "ALAC File"@ {
        FILE_TYPE_ALAC
    } else if kind == "WAV File"@ {
        FILE_TYPE_WAV
    } else if kind == "AIFF File"@ {
        FILE_TYPE_AIFF
    } else {
        0
    }
}

/// The text after the last `.` of a name ending in `.` and `ext` is `ext`,
/// when `ext` holds no `.`.
proof fn lemma_after_last_dot_ext(stem: Seq<char>, ext: Seq<char>)
    requires
        !ext.contains('.'),
    ensures
        after_last_dot(stem + seq!['.'] + ext) == ext,
    decreases ext.len(),
{
    let s = stem + seq!['.'] + ext;
    if ext.len() == 0 {
        assert(s.last() == '.');
    } else {
        assert(s.last() == ext.last());
        assert(!ext.drop_last().contains('.')) by {
            if ext.drop_last().contains('.') {
                let i = choose|i: int| 0 <= i < ext.drop_last().len() && ext.drop_last()[i] == '.';
                assert(ext[i] == '.');
            }
        }
        assert(ext.last() != '.') by {
            assert(ext[ext.len() - 1] == ext.last());
        }
        assert(s.drop_last() =~= stem + seq!['.'] + ext.drop_last());
        lemma_after_last_dot_ext(stem, ext.drop_last());
        assert(ext.drop_last().push(ext.last()) =~= ext);
    }
}

/// A file with a known extension (in any case) gets the type that
/// extension names, whatever its `Kind`: `.mp3` MP3, `.flac` FLAC, `.wav`
/// WAV, `.aif`/`.aiff` AIFF, and `.m4a`/`.aac`/`.mp4` ALAC when `Kind`
/// says so, else M4A.
pub proof fn lemma_file_type_by_extension(kind: Seq<char>, stem: Seq<char>, ext: Seq<char>)
    requires
        !ext.contains('.'),
    ensures
        ({
            let ty = spec_file_type(kind, stem + seq!['.'] + ext);
            let e = ascii_lower(ext);
            &&& e == "mp3"@ ==> ty == FILE_TYPE_MP3
            &&& e == "flac"@ ==> ty == FILE_TYPE_FLAC
            &&& e == "wav"@ ==> ty == FILE_TYPE_WAV
            &&& (e == "aif"@ || e == "aiff"@) ==> ty == FILE_TYPE_AIFF
            &&& (e == "m4a"@ || e == "aac"@ || e == "mp4"@) ==>
                ty == if kind == "ALAC File"@ { FILE_TYPE_ALAC } else { FILE_TYPE_M4A }
        }),
{
    lemma_after_last_dot_ext(stem, ext);
    reveal_strlit("mp3");
    reveal_strlit("m4a");
    reveal_strlit("aac");
    reveal_strlit("mp4");
    reveal_strlit("flac");
    reveal_strlit("wav");
    reveal_strlit("aif");
    reveal_strlit("aiff");
    assert("m4a"@[1] != "mp3"@[1] && "aac"@[0] != "mp3"@[0] && "mp4"@[2] != "mp3"@[2]);
    assert("flac"@[0] != "mp3"@[0] && "flac"@[0] != "m4a"@[0] && "flac"@[0] != "aac"@[0] && "flac"@[0] != "mp4"@[0]);
    assert("wav"@[0] != "mp3"@[0] && "wav"@[0] != "m4a"@[0] && "wav"@[0] != "aac"@[0] && "wav"@[0] != "mp4"@[0] && "wav"@[0] != "flac"@[0]);
    assert("aif"@[0] != "mp3"@[0] && "aif"@[0] != "m4a"@[0] && "aif"@[1] != "aac"@[1] && "aif"@[0] != "mp4"@[0] && "aif"@[0] != "flac"@[0] && "aif"@[0] != "wav"@[0]);
    assert("aiff"@[0] != "mp3"@[0] && "aiff"@[0] != "m4a"@[0] && "aiff"@[1] != "aac"@[1] && "aiff"@[0] != "mp4"@[0] && "aiff"@[0] != "flac"@[0] && "aiff"@[0] != "wav"@[0]);
    assert("m4a"@ != "mp3"@ && "aac"@ != "mp3"@ && "mp4"@ != "mp3"@);
    assert("flac"@ != "mp3"@ && "flac"@ != "m4a"@ && "flac"@ != "aac"@ && "flac"@ != "mp4"@);
    assert("wav"@ != "mp3"@ && "wav"@ != "m4a"@ && "wav"@ != "aac"@ && "wav"@ != "mp4"@ && "wav"@ != "flac"@);
    assert("aif"@ != "mp3"@ && "aif"@ != "m4a"@ && "aif"@ != "aac"@ && "aif"@ != "mp4"@ && "aif"@ != "flac"@ && "aif"@ != "wav"@);
    assert("aiff"@ != "mp3"@ && "aiff"@ != "m4a"@ && "aiff"@ != "aac"@ && "aiff"@ != "mp4"@ && "aiff"@ != "flac"@ && "aiff"@ != "wav"@);
}

/// A file whose name has no known extension gets the type its `Kind`
/// names.
pub proof fn lemma_file_type_by_kind(kind: Seq<char>, file_name: Seq<char>)
    requires
        ({
            let e = ascii_lower(after_last_dot(file_name));
            e != "mp3"@ && e != "m4a"@ && e != "aac"@ && e != "mp4"@ && e != "flac"@
                && e != "wav"@ && e != "aif"@ && e != "aiff"@
        }),
    ensures
        kind == "MP3 File"@ ==> spec_file_type(kind, file_name) == FILE_TYPE_MP3,
        kind == "M4A File"@ ==> spec_file_type(kind, file_name) == FILE_TYPE_M4A,
        kind == "FLAC File"@ ==> spec_file_type(kind, file_name) == FILE_TYPE_FLAC,
        kind == "ALAC File"@ ==> spec_file_type(kind, file_name) == FILE_TYPE_ALAC,
        kind == "WAV File"@ ==> spec_file_type(kind, file_name) == FILE_TYPE_WAV,
        kind == "AIFF File"@ ==> spec_file_type(kind, file_name) == FILE_TYPE_AIFF,
{
    reveal_strlit("MP3 File");
    reveal_strlit("M4A File");
    reveal_strlit("FLAC File");
    reveal_strlit("ALAC File");
    reveal_strlit("WAV File");
    reveal_strlit("AIFF File");
    assert("M4A File"@[1] != "MP3 File"@[1]);
    assert("FLAC File"@[0] != "MP3 File"@[0] && "FLAC File"@[0] != "M4A File"@[0]);
    assert("ALAC File"@[0] != "MP3 File"@[0] && "ALAC File"@[0] != "M4A File"@[0] && "ALAC File"@[0] != "FLAC File"@[0]);
    assert("WAV File"@[0] != "MP3 File"@[0] && "WAV File"@[0] != "M4A File"@[0] && "WAV File"@[0] != "FLAC File"@[0] && "WAV File"@[0] != "ALAC File"@[0]);
    assert("AIFF File"@[0] != "MP3 File"@[0] && "AIFF File"@[0] != "M4A File"@[0] && "AIFF File"@[0] != "FLAC File"@[0] && "AIFF File"@[1] != "ALAC File"@[1] && "AIFF File"@[0] != "WAV File"@[0]);
    assert("M4A File"@ != "MP3 File"@);
    assert("FLAC File"@ != "MP3 File"@ && "FLAC File"@ != "M4A File"@);
    assert("ALAC File"@ != "MP3 File"@ && "ALAC File"@ != "M4A File"@ && "ALAC File"@ != "FLAC File"@);
    assert("WAV File"@ != "MP3 File"@ && "WAV File"@ != "M4A File"@ && "WAV File"@ != "FLAC File"@ && "WAV File"@ != "ALAC File"@);
    assert("AIFF File"@ != "MP3 File"@ && "AIFF File"@ != "M4A File"@ && "AIFF File"@ != "FLAC File"@ && "AIFF File"@ != "ALAC File"@ && "AIFF File"@ != "WAV File"@);
}

/// The lower-case extension of `file_name`.
fn extension_of(file_name: &str) -> (ext: String)
    ensures
        ext@ == ascii_lower(after_last_dot(file_name@)),
{
    let cs = crate::text::chars_of(file_name);
    let mut start = cs.len();
    proof {
        assert(cs@.take(start as int) =~= cs@);
        assert(cs@.subrange(start as int, cs@.len() as int) =~= Seq::<char>::empty());
        assert(after_last_dot(cs@) + Seq::<char>::empty() =~= after_last_dot(cs@));
    }
    while start > 0 && cs[start - 1] != '.'
        invariant
            start <= cs@.len(),
            cs@ == file_name@,
            after_last_dot(file_name@) == after_last_dot(cs@.take(start as int)) + cs@.subrange(start as int, cs@.len() as int),
        decreases start,
    {
        proof {
            let t = cs@.take(start as int);
            assert(t.drop_last() =~= cs@.take(start - 1));
            assert(t.last() == cs@[start - 1]);
            assert(after_last_dot(cs@.take(start - 1)).push(cs@[start - 1]) + cs@.subrange(start as int, cs@.len() as int)
                =~= after_last_dot(cs@.take(start - 1)) + cs@.subrange(start - 1, cs@.len() as int));
        }
        start = start - 1;
    }
    proof {
        if start > 0 {
            assert(cs@.take(start as int).last() == cs@[start - 1]);
        }
        assert(after_last_dot(cs@.take(start as int)) =~= Seq::<char>::empty());
    }
    let mut out: Vec<char> = Vec::new();
    let mut i = start;
    while i < cs.len()
        invariant
            start <= i <= cs@.len(),
            out@ == ascii_lower(cs@.subrange(start as int, i as int)),
        decreases cs@.len() - i,
    {
        out.push(crate::text::lower_char(cs[i]));
        i = i + 1;
        assert(out@ =~= ascii_lower(cs@.subrange(start as int, i as int)));
    }
    assert(Seq::<char>::empty() + cs@.subrange(start as int, cs@.len() as int) =~= cs@.subrange(start as int, cs@.len() as int));
    crate::text::string_from_chars(out.as_slice())
}

/// The database file type of a track with XML `Kind` `kind` and file
/// name `file_name`.
pub fn file_type_for(kind: &str, file_name: &str) -> (ty: u16)
    ensures
        ty == spec_file_type(kind@, file_name@),
{
    let ext = extension_of(file_name);
    let e = ext.as_str();
    if crate::text::str_eq(e, "mp3") {
        FILE_TYPE_MP3
    } else if crate::text::str_eq(e, "m4a") || crate::text::str_eq(e, "aac") || crate::text::str_eq(e, "mp4") {
        if crate::text::str_eq(kind, "ALAC File") { FILE_TYPE_ALAC } else { FILE_TYPE_M4A }
    } else if crate::text::str_eq(e, "flac") {
        FILE_TYPE_FLAC
    } else if crate::text::str_eq(e, "wav") {
        FILE_TYPE_WAV
    } else if crate::text::str_eq(e, "aif") || crate::text::str_eq(e, "aiff") {
        FILE_TYPE_AIFF
    } else if crate::text::str_eq(kind, "MP3 File") {
        FILE_TYPE_MP3
    } else if crate::text::str_eq(kind, "M4A File") {
        FILE_TYPE_M4A
    } else if crate::text::str_eq(kind, "FLAC File") {
        FILE_TYPE_FLAC
    } else if crate::text::str_eq(kind, "ALAC File") {
        FILE_TYPE_ALAC
    } else if crate::text::str_eq(kind, "WAV File") {
        FILE_TYPE_WAV
    } else if crate::text::str_eq(kind, "AIFF File") {
        FILE_TYPE_AIFF
    } else {
        0
    }
}


// ---------------------------------------------------------------- dates ---

/// The proleptic Gregorian date `(year, month, day)` of the day `days`
/// after 1970-01-01 (Howard Hinnant's civil-from-days).
pub open spec fn civil_from_days(days: int) -> (int, int, int) {
    let z = days + 719468;
    let era = z / 146097;
    let doe = z % 146097;
    let yoe = (doe - doe / 1460 + doe / 36524 - doe / 146096) / 365;
    let doy = doe - (365 * yoe + yoe / 4 - yoe / 100);
    let mp = (5 * doy + 2) / 153;
    let d = doy - (153 * mp + 2) / 5 + 1;
    let m = if mp < 10 { mp + 3 } else { mp - 9 };
    let y = yoe + era * 400;
    (if m <= 2 { y + 1 } else { y }, m, d)
}

/// The decimal digits of `n`.
pub open spec fn dec(n: nat) -> Seq<char>
    decreases n,
{
    if n < 10 { seq![(48 + n) as char] } else { dec(n / 10).push((48 + n % 10) as char) }
}

/// The decimal digits of `n`, with leading zeros up to `w` characters.
pub open spec fn zero_padded(n: nat, w: nat) -> Seq<char> {
    let d = dec(n);
    if d.len() >= w { d } else { Seq::new((w - d.len()) as nat, |_i: int| '0') + d }
}

/// `YYYY-MM-DD` of the UTC day holding the Unix time `secs`.
pub open spec fn spec_civil_date(secs: nat) -> Seq<char> {
    let (y, m, d) = civil_from_days((secs / 86400) as int);
    zero_padded(y as nat, 4) + seq!['-'] + zero_padded(m as nat, 2) + seq!['-'] + zero_padded(d as nat, 2)
}

/// Appends the decimal digits of `n`.
pub fn push_dec(out: &mut Vec<char>, n: u64)
    ensures
        final(out)@ == old(out)@ + dec(n as nat),
    decreases n,
{
    if n >= 10 {
        push_dec(out, n / 10);
    }
    let digit: u8 = (n % 10) as u8;
    out.push((48u8 + digit) as char);
    assert(out@ =~= old(out)@ + dec(n as nat));
}

/// Appends `n` padded with zeros to `w` characters.
fn push_padded(out: &mut Vec<char>, n: u64, w: usize)
    ensures
        final(out)@ == old(out)@ + zero_padded(n as nat, w as nat),
{
    let mut d: Vec<char> = Vec::new();
    push_dec(&mut d, n);
    assert(d@ =~= dec(n as nat));
    let mut k = d.len();
    let ghost start = out@;
    while k < w
        invariant
            d@ == dec(n as nat),
            d@.len() <= k <= (if d@.len() >= w { d@.len() as int } else { w as int }),
            out@ == start + Seq::new((k - d@.len()) as nat, |_i: int| '0'),
        decreases w - k,
    {
        out.push('0');
        k = k + 1;
        assert(out@ =~= start + Seq::new((k - d@.len()) as nat, |_i: int| '0'));
    }
    let ghost mid = out@;
    let mut i: usize = 0;
    while i < d.len()
        invariant
            i <= d@.len(),
            out@ == mid + d@.take(i as int),
        decreases d@.len() - i,
    {
        out.push(d[i]);
        i = i + 1;
        assert(out@ =~= mid + d@.take(i as int));
    }
    proof {
        assert(d@.take(i as int) =~= d@);
        if d@.len() >= w {
            assert(Seq::new((k - d@.len()) as nat, |_i: int| '0') =~= Seq::<char>::empty());
            assert(out@ =~= start + d@);
        } else {
            assert(out@ =~= start + (Seq::new((w - d@.len()) as nat, |_i: int| '0') + d@));
        }
    }
}

proof fn lemma_year_of_era(doe: u64)
    by (bit_vector)
    requires
        doe < 146097u64,
    ensures
        doe / 1460 <= doe,
        doe / 146096 <= ((doe - doe / 1460) as u64) + doe / 36524,
        ((((doe - doe / 1460) as u64 + doe / 36524) as u64 - doe / 146096) as u64) / 365 < 401u64,
{
}

proof fn lemma_day_of_year(doe: u64, yoe: u64)
    by (bit_vector)
    requires
        doe < 146097u64,
        yoe == ((((doe - doe / 1460) as u64 + doe / 36524) as u64 - doe / 146096) as u64) / 365,
    ensures
        yoe < 401u64,
        (((365 * yoe) as u64 + yoe / 4) as u64 - yoe / 100) as u64 <= doe,
        (doe - ((((365 * yoe) as u64 + yoe / 4) as u64 - yoe / 100) as u64)) as u64 <= 365u64,
{
}

proof fn lemma_month(doy: u64, mp: u64)
    by (bit_vector)
    requires
        doy <= 365u64,
        mp == ((5 * doy) as u64 + 2) as u64 / 153,
    ensures
        mp <= 11u64,
        (((153 * mp) as u64 + 2) as u64) / 5 <= doy,
        (doy - (((153 * mp) as u64 + 2) as u64) / 5) as u64 <= 30u64,
{
}

/// `YYYY-MM-DD` of the UTC day holding the Unix time `secs`.
pub fn civil_date(secs: u64) -> (s: String)
    ensures
        s@ == spec_civil_date(secs as nat),
{
    let days: u64 = secs / 86400;
    let z: u64 = days + 719468;
    let era: u64 = z / 146097;
    let doe: u64 = z % 146097;
    proof {
        lemma_year_of_era(doe);
    }
    let t: u64 = doe - doe / 1460 + doe / 36524 - doe / 146096;
    let yoe: u64 = t / 365;
    proof {
        lemma_day_of_year(doe, yoe);
    }
    let doy: u64 = doe - (365 * yoe + yoe / 4 - yoe / 100);
    let mp: u64 = (5 * doy + 2) / 153;
    proof {
        lemma_month(doy, mp);
    }
    let d: u64 = doy - (153 * mp + 2) / 5 + 1;
    let m: u64 = if mp < 10 { mp + 3 } else { mp - 9 };
    let y0: u64 = yoe + era * 400;
    let y: u64 = if m <= 2 { y0 + 1 } else { y0 };
    let mut out: Vec<char> = Vec::new();
    push_padded(&mut out, y, 4);
    out.push('-');
    push_padded(&mut out, m, 2);
    out.push('-');
    push_padded(&mut out, d, 2);
    proof {
        let days_i = (secs / 86400) as int;
        assert(days_i == days);
        assert(spec_civil_date(secs as nat) == zero_padded(y as nat, 4) + seq!['-'] + zero_padded(m as nat, 2)
            + seq!['-'] + zero_padded(d as nat, 2));
        assert(out@ =~= zero_padded(y as nat, 4) + seq!['-'] + zero_padded(m as nat, 2) + seq!['-'] + zero_padded(d as nat, 2));
    }
    crate::text::string_from_chars(out.as_slice())
}


}
