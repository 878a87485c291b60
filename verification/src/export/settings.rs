//! CDJ and DJM "My Settings" files: a 104-byte header (`len_strings` u8 + 3
//! pad, brand, `rekordbox`, version as 32-byte fields, `len_data` u32),
//! payload, CRC16-XMODEM, two zero bytes. They are copied verbatim into
//! `PIONEER/` on the stick; an export without the three required ones is an
//! error.
use vstd::prelude::*;
use crate::bytes::le32_at;
use crate::text::str_eq;

verus! {

/// The files an export needs.
pub const REQUIRED: [&'static str; 3] = ["MYSETTING.DAT", "MYSETTING2.DAT", "DJMMYSETTING.DAT"];

/// Copied when present; a player reads a stick without it.
pub const OPTIONAL: &'static str = "DEVSETTING.DAT";

/// Why a settings file was refused.
#[derive(Debug, Clone, Copy, PartialEq, Eq)]
pub enum SettingsError {
    /// Shorter than 110 bytes; `expected_file` is the size a file of this
    /// name has.
    TooShort { len: usize, expected_file: Option<usize> },
    /// `len_data` or the file size is not what the name calls for.
    UnexpectedLayout { len_data: usize, file_len: usize, expected: usize },
    /// Neither `rekordbox` at 36 nor `PIONEER`/`PioneerDJ` at 4.
    BadHeader,
    /// The stored CRC is not the computed one.
    ChecksumMismatch { stored: u16, computed: u16 },
}

/// One CRC-16/XMODEM shift step.
pub open spec fn crc_shift(crc: u16) -> u16 {
    if crc & 0x8000 != 0 { (crc << 1u16) ^ 0x1021u16 } else { crc << 1u16 }
}

/// `n` shift steps.
pub open spec fn crc_rounds(crc: u16, n: nat) -> u16
    decreases n,
{
    if n == 0 { crc } else { crc_rounds(crc_shift(crc), (n - 1) as nat) }
}

/// CRC-16/XMODEM of `data`.
pub open spec fn crc16(data: Seq<u8>) -> u16
    decreases data.len(),
{
    if data.len() == 0 {
        0
    } else {
        crc_rounds(crc16(data.drop_last()) ^ ((data.last() as u16) << 8u16), 8)
    }
}

/// CRC-16/XMODEM.
pub fn crc16_xmodem(data: &[u8]) -> (crc: u16)
    ensures
        crc == crc16(data@),
{
    let mut crc: u16 = 0;
    let mut i: usize = 0;
    while i < data.len()
        invariant
            i <= data@.len(),
            crc == crc16(data@.take(i as int)),
        decreases data@.len() - i,
    {
        crc = crc ^ ((data[i] as u16) << 8u16);
        let ghost start = crc;
        let mut k: u32 = 0;
        while k < 8
            invariant
                k <= 8,
                crc_rounds(crc, (8 - k) as nat) == crc_rounds(start, 8),
            decreases 8 - k,
        {
            crc = if crc & 0x8000 != 0 { (crc << 1u16) ^ 0x1021 } else { crc << 1u16 };
            k = k + 1;
        }
        proof {
            assert(data@.take(i + 1).drop_last() =~= data@.take(i as int));
        }
        i = i + 1;
    }
    assert(data@.take(i as int) =~= data@);
    crc
}

/// Payload size of a settings file with this name, when it is one of the
/// four known ones.
pub open spec fn spec_expected_payload(name: Seq<char>) -> Option<usize> {
    if name == "MYSETTING.DAT"@ || name == "MYSETTING2.DAT"@ {
        Some(40)
    } else if name == "DJMMYSETTING.DAT"@ {
        Some(52)
    } else if name == "DEVSETTING.DAT"@ {
        Some(32)
    } else {
        None
    }
}

/// Payload size of a settings file with this name.
pub fn expected_payload(name: &str) -> (r: Option<usize>)
    ensures
        r == spec_expected_payload(name@),
{
    if str_eq(name, "MYSETTING.DAT") || str_eq(name, "MYSETTING2.DAT") {
        Some(40)
    } else if str_eq(name, "DJMMYSETTING.DAT") {
        Some(52)
    } else if str_eq(name, "DEVSETTING.DAT") {
        Some(32)
    } else {
        None
    }
}

/// `b` holds `pat` at `at`.
pub open spec fn has_at(b: Seq<u8>, at: int, pat: Seq<u8>) -> bool {
    at + pat.len() <= b.len() && b.subrange(at, at + pat.len()) == pat
}

/// The header names the brand or the application.
pub open spec fn header_ok(b: Seq<u8>) -> bool {
    ||| has_at(b, 36, seq![0x72u8, 0x65, 0x6b, 0x6f, 0x72, 0x64, 0x62, 0x6f, 0x78, 0x00])
    ||| has_at(b, 4, seq![0x50u8, 0x49, 0x4f, 0x4e, 0x45, 0x45, 0x52])
    ||| has_at(b, 4, seq![0x50u8, 0x69, 0x6f, 0x6e, 0x65, 0x65, 0x72, 0x44, 0x4a])
}

/// The outcome of checking the bytes `b` of the settings file `name`.
pub open spec fn spec_validate(name: Seq<char>, b: Seq<u8>) -> Result<(), SettingsError> {
    let expected_payload = spec_expected_payload(name);
    if b.len() < 110 {
        Err(SettingsError::TooShort {
            len: b.len() as usize,
            expected_file: match expected_payload {
                Some(p) => Some((104 + p + 4) as usize),
                None => None,
            },
        })
    } else {
        let len_data = le32_at(b, 100) as int;
        let expected = match expected_payload {
            Some(p) => p as int,
            None => len_data,
        };
        if len_data != expected || b.len() != 104 + len_data + 4 {
            Err(SettingsError::UnexpectedLayout {
                len_data: len_data as usize,
                file_len: b.len() as usize,
                expected: expected as usize,
            })
        } else if !header_ok(b) {
            Err(SettingsError::BadHeader)
        } else {
            let stored = crate::bytes::le16_at(b, 104 + len_data);
            let computed = if name == "DJMMYSETTING.DAT"@ {
                crc16(b.take(104 + len_data))
            } else {
                crc16(b.subrange(104, 104 + len_data))
            };
            if stored != computed {
                Err(SettingsError::ChecksumMismatch { stored, computed })
            } else {
                Ok(())
            }
        }
    }
}

/// Whether `b` holds `pat` at `at`.
fn bytes_at(b: &[u8], at: usize, pat: &[u8]) -> (r: bool)
    ensures
        r == has_at(b@, at as int, pat@),
{
    proof { assert(b@.len() == b.len()); }
    if at > b.len() || pat.len() > b.len() - at {
        return false;
    }
    let mut i: usize = 0;
    while i < pat.len()
        invariant
            i <= pat@.len(),
            b@.len() == b.len(),
            at + pat@.len() <= b@.len(),
            forall|j: int| 0 <= j < i ==> b@[at + j] == pat@[j],
        decreases pat@.len() - i,
    {
        if b[at + i] != pat[i] {
            assert(b@.subrange(at as int, at + pat@.len())[i as int] != pat@[i as int]);
            return false;
        }
        i = i + 1;
    }
    assert(b@.subrange(at as int, at + pat@.len()) =~= pat@);
    true
}

/// Structural and checksum check of the settings file `name` with bytes `b`.
pub fn validate(name: &str, b: &[u8]) -> (r: Result<(), SettingsError>)
    ensures
        r == spec_validate(name@, b@),
{
    proof { assert(b@.len() == b.len()); }
    let expected_payload = expected_payload(name);
    if b.len() < 110 {
        let expected_file = match expected_payload {
            Some(p) => Some(104 + p + 4),
            None => None,
        };
        return Err(SettingsError::TooShort { len: b.len(), expected_file });
    }
    let len_data = crate::bytes::get_le32(b, 100) as usize;
    let expected = match expected_payload {
        Some(p) => p,
        None => len_data,
    };
    if len_data != expected || b.len() < 108 || b.len() - 108 != len_data {
        return Err(SettingsError::UnexpectedLayout { len_data, file_len: b.len(), expected });
    }
    let rekordbox: [u8; 10] = [0x72, 0x65, 0x6b, 0x6f, 0x72, 0x64, 0x62, 0x6f, 0x78, 0x00];
    let pioneer: [u8; 7] = [0x50, 0x49, 0x4f, 0x4e, 0x45, 0x45, 0x52];
    let pioneer_dj: [u8; 9] = [0x50, 0x69, 0x6f, 0x6e, 0x65, 0x65, 0x72, 0x44, 0x4a];
    assert(rekordbox@ =~= seq![0x72u8, 0x65, 0x6b, 0x6f, 0x72, 0x64, 0x62, 0x6f, 0x78, 0x00]);
    assert(pioneer@ =~= seq![0x50u8, 0x49, 0x4f, 0x4e, 0x45, 0x45, 0x52]);
    assert(pioneer_dj@ =~= seq![0x50u8, 0x69, 0x6f, 0x6e, 0x65, 0x65, 0x72, 0x44, 0x4a]);
    if !bytes_at(b, 36, &rekordbox) && !bytes_at(b, 4, &pioneer) && !bytes_at(b, 4, &pioneer_dj) {
        return Err(SettingsError::BadHeader);
    }
    let stored = crate::bytes::get_le16(b, 104 + len_data);
    let computed = if str_eq(name, "DJMMYSETTING.DAT") {
        let head = crate::bytes::copy_range(b, 0, 104 + len_data);
        assert(head@ =~= b@.take(104 + len_data));
        crc16_xmodem(head.as_slice())
    } else {
        let payload = crate::bytes::copy_range(b, 104, len_data);
        crc16_xmodem(payload.as_slice())
    };
    if stored != computed {
        return Err(SettingsError::ChecksumMismatch { stored, computed });
    }
    Ok(())
}

/// The files to validate and copy: the required ones, then the optional
/// one when it is present.
pub fn candidates(optional_present: bool) -> (v: Vec<&'static str>)
    ensures
        optional_present ==> v@.map_values(|s: &str| s@) == seq![REQUIRED[0]@, REQUIRED[1]@, REQUIRED[2]@, OPTIONAL@],
        !optional_present ==> v@.map_values(|s: &str| s@) == seq![REQUIRED[0]@, REQUIRED[1]@, REQUIRED[2]@],
{
    let mut v: Vec<&'static str> = Vec::new();
    v.push(REQUIRED[0]);
    v.push(REQUIRED[1]);
    v.push(REQUIRED[2]);
    if optional_present {
        v.push(OPTIONAL);
    }
    assert(optional_present ==> v@.map_values(|s: &str| s@) =~= seq![REQUIRED[0]@, REQUIRED[1]@, REQUIRED[2]@, OPTIONAL@]);
    assert(!optional_present ==> v@.map_values(|s: &str| s@) =~= seq![REQUIRED[0]@, REQUIRED[1]@, REQUIRED[2]@]);
    v
}

/// A settings file that failed its check.
#[derive(Debug, Clone, Copy, PartialEq, Eq)]
pub struct FileError {
    pub name: &'static str,
    pub error: SettingsError,
    /// The file is the optional one, so removing it is a way out.
    pub optional: bool,
}

/// The names `candidates(optional_present)` lists.
pub open spec fn candidate_names(optional_present: bool) -> Seq<Seq<char>> {
    if optional_present {
        seq![REQUIRED[0]@, REQUIRED[1]@, REQUIRED[2]@, OPTIONAL@]
    } else {
        seq![REQUIRED[0]@, REQUIRED[1]@, REQUIRED[2]@]
    }
}

/// The first file from `i` on whose check fails, or -1.
pub open spec fn first_failure(names: Seq<Seq<char>>, contents: Seq<Seq<u8>>, i: int) -> int
    decreases names.len() - i,
{
    if i < 0 || i >= names.len() {
        -1
    } else if spec_validate(names[i], contents[i]) is Err {
        i
    } else {
        first_failure(names, contents, i + 1)
    }
}

/// The files to copy, each checked: the required ones, plus the optional
/// one when it is present. `contents` holds the bytes of each file
/// `candidates(optional_present)` lists, in that order. The first file that
/// fails its check is the error.
pub fn files(optional_present: bool, contents: &[Vec<u8>]) -> (r: Result<Vec<&'static str>, FileError>)
    requires
        contents@.len() == candidate_names(optional_present).len(),
    ensures
        ({
            let names = candidate_names(optional_present);
            let cs = crate::bytes::views(contents@);
            let k = first_failure(names, cs, 0);
            match r {
                Ok(v) => k < 0 && v@.map_values(|s: &str| s@) == names,
                Err(e) => k >= 0 && e.name@ == names[k] && Err::<(), SettingsError>(e.error) == spec_validate(names[k], cs[k])
                    && e.optional == (k == 3),
            }
        }),
{
    let names = candidates(optional_present);
    let ghost nm = candidate_names(optional_present);
    let ghost cs = crate::bytes::views(contents@);
    let mut i: usize = 0;
    while i < names.len()
        invariant
            names@.map_values(|s: &str| s@) == nm,
            nm == candidate_names(optional_present),
            cs == crate::bytes::views(contents@),
            contents@.len() == nm.len(),
            i <= nm.len(),
            first_failure(nm, cs, 0) == first_failure(nm, cs, i as int),
        decreases nm.len() - i,
    {
        assert(names@[i as int]@ == nm[i as int]);
        match validate(names[i], contents[i].as_slice()) {
            Ok(()) => {},
            Err(error) => {
                return Err(FileError { name: names[i], error, optional: i == 3 });
            },
        }
        i = i + 1;
    }
    Ok(names)
}

/// The first index from `i` on whose flag is set, or -1.
pub open spec fn first_set(flags: Seq<bool>, i: int) -> int
    decreases flags.len() - i,
{
    if i < 0 || i >= flags.len() {
        -1
    } else if flags[i] {
        i
    } else {
        first_set(flags, i + 1)
    }
}

/// The directory holding the required files: the first candidate whose
/// `has_required` flag is set. `Err` gives back every candidate tried.
pub fn locate(candidates: Vec<String>, has_required: &[bool]) -> (r: Result<String, Vec<String>>)
    requires
        has_required@.len() == candidates@.len(),
    ensures
        ({
            let k = first_set(has_required@, 0);
            match r {
                Ok(d) => k >= 0 && d@ == candidates@[k]@,
                Err(all) => k < 0 && all@ == candidates@,
            }
        }),
{
    let mut i: usize = 0;
    while i < has_required.len()
        invariant
            i <= has_required@.len(),
            has_required@.len() == candidates@.len(),
            first_set(has_required@, 0) == first_set(has_required@, i as int),
        decreases has_required@.len() - i,
    {
        if has_required[i] {
            let mut candidates = candidates;
            let d = candidates.swap_remove(i);
            return Ok(d);
        }
        i = i + 1;
    }
    Err(candidates)
}

}
