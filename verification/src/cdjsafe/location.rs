//! `Location` URLs of the rekordbox XML and file names for FAT32/exFAT sticks.
use vstd::prelude::*;
use vstd::utf8::{decode_utf8, encode_scalar, encode_utf8, valid_utf8};

verus! {

/// Why a `Location` could not be decoded.
#[derive(Debug, Clone, Copy, PartialEq, Eq)]
pub enum LocationError {
    /// Neither `file://localhost` nor `file://`.
    Unsupported,
    /// A `%` escape whose two characters are not a hex number.
    InvalidEscape,
    /// An escape, or the decoded path, that is not UTF-8.
    NotUtf8,
}

/// The value of one hex digit.
pub open spec fn hex_val(c: u8) -> Option<u8> {
    if 0x30 <= c <= 0x39 {
        Some((c - 0x30) as u8)
    } else if 0x41 <= c <= 0x46 {
        Some((c - 0x41 + 10) as u8)
    } else if 0x61 <= c <= 0x66 {
        Some((c - 0x61 + 10) as u8)
    } else {
        None
    }
}

/// Two characters read as a base-16 number: hex digits, the first of which
/// may be a `+` sign.
pub open spec fn escape_value(a: u8, b: u8) -> Option<u8> {
    if a == 0x2b {
        hex_val(b)
    } else {
        match (hex_val(a), hex_val(b)) {
            (Some(x), Some(y)) => Some((x * 16 + y) as u8),
            _ => None,
        }
    }
}

/// Percent-decoding of `b` from `i` on. A `%` followed by at least two
/// bytes is an escape; any other byte stands for itself.
pub open spec fn pct_decode(b: Seq<u8>, i: int) -> Result<Seq<u8>, LocationError>
    decreases b.len() - i,
{
    if i < 0 || i >= b.len() {
        Ok(seq![])
    } else if b[i] == 0x25 && i + 2 < b.len() {
        if !valid_utf8(b.subrange(i + 1, i + 3)) {
            Err(LocationError::NotUtf8)
        } else {
            match escape_value(b[i + 1], b[i + 2]) {
                None => Err(LocationError::InvalidEscape),
                Some(v) => match pct_decode(b, i + 3) {
                    Ok(rest) => Ok(seq![v] + rest),
                    Err(e) => Err(e),
                },
            }
        }
    } else {
        match pct_decode(b, i + 1) {
            Ok(rest) => Ok(seq![b[i]] + rest),
            Err(e) => Err(e),
        }
    }
}

/// The bytes of `file://localhost`.
pub open spec fn localhost_prefix() -> Seq<u8> {
    seq![0x66u8, 0x69, 0x6c, 0x65, 0x3a, 0x2f, 0x2f, 0x6c, 0x6f, 0x63, 0x61, 0x6c, 0x68, 0x6f, 0x73, 0x74]
}

/// The bytes of `file://`.
pub open spec fn file_prefix() -> Seq<u8> {
    seq![0x66u8, 0x69, 0x6c, 0x65, 0x3a, 0x2f, 0x2f]
}

/// What follows the URL prefix, if there is one.
pub open spec fn url_rest(b: Seq<u8>) -> Option<Seq<u8>> {
    if b.len() >= 16 && b.take(16) == localhost_prefix() {
        Some(b.skip(16))
    } else if b.len() >= 7 && b.take(7) == file_prefix() {
        Some(b.skip(7))
    } else {
        None
    }
}

/// The path a decoded location names: a Windows location (`/C:/...`)
/// loses its leading slash.
pub open spec fn path_of(out: Seq<u8>) -> Seq<char> {
    if out.len() > 2 && out[0] == 0x2f && out[2] == 0x3a {
        decode_utf8(out).drop_first()
    } else {
        decode_utf8(out)
    }
}

/// The filesystem path a `Location` attribute names.
pub open spec fn spec_decode_location(location: Seq<char>) -> Result<Seq<char>, LocationError> {
    match url_rest(encode_utf8(location)) {
        None => Err(LocationError::Unsupported),
        Some(rest) => match pct_decode(rest, 0) {
            Err(e) => Err(e),
            Ok(out) => if valid_utf8(out) { Ok(path_of(out)) } else { Err(LocationError::NotUtf8) },
        },
    }
}

/// Whether `b` starts with `pat`.
fn starts_with(b: &[u8], pat: &[u8]) -> (r: bool)
    ensures
        r == (b@.len() >= pat@.len() && b@.take(pat@.len() as int) == pat@),
{
    if b.len() < pat.len() {
        return false;
    }
    let mut i: usize = 0;
    while i < pat.len()
        invariant
            i <= pat@.len() <= b@.len(),
            forall|j: int| 0 <= j < i ==> b@[j] == pat@[j],
        decreases pat@.len() - i,
    {
        if b[i] != pat[i] {
            assert(b@.take(pat@.len() as int)[i as int] != pat@[i as int]);
            return false;
        }
        i = i + 1;
    }
    assert(b@.take(pat@.len() as int) =~= pat@);
    true
}

/// The value of one hex digit.
fn hex_digit_value(c: u8) -> (r: Option<u8>)
    ensures
        r == hex_val(c),
{
    if 0x30 <= c && c <= 0x39 {
        Some(c - 0x30)
    } else if 0x41 <= c && c <= 0x46 {
        Some(c - 0x41 + 10)
    } else if 0x61 <= c && c <= 0x66 {
        Some(c - 0x61 + 10)
    } else {
        None
    }
}

/// Decode a rekordbox `Location` attribute (`file://localhost/...`) into a
/// filesystem path.
pub fn decode_location(location: &str) -> (r: Result<String, LocationError>)
    ensures
        match r {
            Ok(p) => spec_decode_location(location@) == Ok::<Seq<char>, LocationError>(p@),
            Err(e) => spec_decode_location(location@) == Err::<Seq<char>, LocationError>(e),
        },
{
    let all = location.as_bytes();
    let localhost: [u8; 16] = [0x66, 0x69, 0x6c, 0x65, 0x3a, 0x2f, 0x2f, 0x6c, 0x6f, 0x63, 0x61, 0x6c, 0x68, 0x6f, 0x73, 0x74];
    let file: [u8; 7] = [0x66, 0x69, 0x6c, 0x65, 0x3a, 0x2f, 0x2f];
    assert(localhost@ =~= localhost_prefix());
    assert(file@ =~= file_prefix());
    proof { assert(all@.len() == all.len()); }
    let skip: usize = if starts_with(all, &localhost) {
        16
    } else if starts_with(all, &file) {
        7
    } else {
        return Err(LocationError::Unsupported);
    };
    let bytes = crate::bytes::copy_range(all, skip, all.len() - skip);
    assert(bytes@ =~= all@.skip(skip as int));
    assert(url_rest(encode_utf8(location@)) == Some(bytes@));
    let ghost whole = pct_decode(bytes@, 0);
    let mut out: Vec<u8> = Vec::new();
    let mut i: usize = 0;
    while i < bytes.len()
        invariant
            i <= bytes@.len(),
            bytes@.len() == bytes.len(),
            url_rest(encode_utf8(location@)) == Some(bytes@),
            whole == pct_decode(bytes@, 0),
            whole == match pct_decode(bytes@, i as int) {
                Ok(rest) => Ok(out@ + rest),
                Err(e) => Err::<Seq<u8>, LocationError>(e),
            },
        decreases bytes@.len() - i,
    {
        let ghost before = out@;
        if bytes[i] == 0x25 && bytes.len() - i > 2 {
            let pair = crate::bytes::copy_range(bytes.as_slice(), i + 1, 2);
            if crate::text::str_from_utf8(pair.as_slice()).is_none() {
                return Err(LocationError::NotUtf8);
            }
            let a = bytes[i + 1];
            let b = bytes[i + 2];
            let v = if a == 0x2b {
                hex_digit_value(b)
            } else {
                match (hex_digit_value(a), hex_digit_value(b)) {
                    (Some(x), Some(y)) => Some(x * 16 + y),
                    _ => None,
                }
            };
            match v {
                None => {
                    return Err(LocationError::InvalidEscape);
                },
                Some(v) => {
                    out.push(v);
                    proof {
                        match pct_decode(bytes@, i + 3) {
                            Ok(rest) => assert(before + (seq![v] + rest) =~= out@ + rest),
                            Err(e) => {},
                        }
                    }
                    i = i + 3;
                },
            }
        } else {
            out.push(bytes[i]);
            proof {
                match pct_decode(bytes@, i + 1) {
                    Ok(rest) => assert(before + (seq![bytes@[i as int]] + rest) =~= out@ + rest),
                    Err(e) => {},
                }
            }
            i = i + 1;
        }
    }
    assert(out@ + Seq::<u8>::empty() =~= out@);
    let ghost raw = out@;
    let windows = out.len() > 2 && out[0] == 0x2f && out[2] == 0x3a;
    match crate::text::string_from_utf8(out) {
        None => Err(LocationError::NotUtf8),
        Some(path) => {
            if windows {
                let mut chars = crate::text::chars_of(path.as_str());
                chars.remove(0);
                let s = crate::text::string_from_chars(chars.as_slice());
                proof { assert(s@ =~= decode_utf8(raw).drop_first()); }
                Ok(s)
            } else {
                Ok(path)
            }
        },
    }
}

/// A path with forward slashes, starting with one: Windows drive paths
/// `C:/...` become `/C:/...`.
pub open spec fn posix_path(p: Seq<char>) -> Seq<char> {
    let q = p.map_values(|c: char| if c == '\\' { '/' } else { c });
    if q.len() > 0 && q[0] == '/' { q } else { seq!['/'] + q }
}

/// Bytes a `Location` keeps as they are: RFC 3986 unreserved characters,
/// `/` and `:`.
pub open spec fn unreserved(b: u8) -> bool {
    ||| 0x41 <= b <= 0x5a
    ||| 0x61 <= b <= 0x7a
    ||| 0x30 <= b <= 0x39
    ||| b == 0x2d || b == 0x2e || b == 0x5f || b == 0x7e || b == 0x2f || b == 0x3a
}

/// Upper-case hex digit of `d < 16`.
pub open spec fn hex_upper_digit(d: u8) -> u8 {
    if d < 10 { (0x30 + d) as u8 } else { (0x37 + d) as u8 }
}

/// One byte as it appears in a `Location`.
pub open spec fn escape_byte(b: u8) -> Seq<u8> {
    if unreserved(b) { seq![b] } else { seq![0x25u8, hex_upper_digit(b / 16), hex_upper_digit(b % 16)] }
}

/// Percent-encoding of `b`.
pub open spec fn pct_encode(b: Seq<u8>) -> Seq<u8>
    decreases b.len(),
{
    if b.len() == 0 { seq![] } else { escape_byte(b[0]) + pct_encode(b.drop_first()) }
}

/// ASCII bytes as characters.
pub open spec fn ascii_chars(b: Seq<u8>) -> Seq<char> {
    b.map_values(|x: u8| x as char)
}

/// The canonical `Location` of path `p`.
pub open spec fn spec_encode_location(p: Seq<char>) -> Seq<char> {
    ascii_chars(localhost_prefix() + pct_encode(encode_utf8(posix_path(p))))
}

proof fn lemma_pct_encode_push(b: Seq<u8>, x: u8)
    ensures
        pct_encode(b.push(x)) == pct_encode(b) + escape_byte(x),
    decreases b.len(),
{
    if b.len() == 0 {
        assert(b.push(x).drop_first() =~= Seq::<u8>::empty());
        assert(pct_encode(Seq::<u8>::empty()) == Seq::<u8>::empty());
        assert(b =~= Seq::<u8>::empty());
        assert(b.push(x)[0] == x);
        assert(pct_encode(b.push(x)) == escape_byte(x) + pct_encode(Seq::<u8>::empty()));
        assert(pct_encode(b.push(x)) =~= pct_encode(b) + escape_byte(x));
    } else {
        lemma_pct_encode_push(b.drop_first(), x);
        assert(b.push(x).drop_first() =~= b.drop_first().push(x));
        assert(pct_encode(b.push(x)) =~= pct_encode(b) + escape_byte(x));
    }
}

/// Encode a filesystem path as a canonical `Location` URL:
/// `file://localhost/` + forward slashes + RFC 3986 percent-encoding with
/// `/` and `:` left as they are.
pub fn encode_location(path: &str) -> (url: String)
    ensures
        url@ == spec_encode_location(path@),
{
    let chars = crate::text::chars_of(path);
    let mut posix: Vec<char> = Vec::new();
    if !(chars.len() > 0 && (chars[0] == '/' || chars[0] == '\\')) {
        posix.push('/');
    }
    let ghost q = path@.map_values(|c: char| if c == '\\' { '/' } else { c });
    let ghost lead = posix@;
    let mut i: usize = 0;
    while i < chars.len()
        invariant
            i <= chars@.len(),
            chars@ == path@,
            q == path@.map_values(|c: char| if c == '\\' { '/' } else { c }),
            posix@ == lead + q.take(i as int),
        decreases chars@.len() - i,
    {
        let c = chars[i];
        posix.push(if c == '\\' { '/' } else { c });
        i = i + 1;
        assert(posix@ =~= lead + q.take(i as int));
    }
    assert(q.take(i as int) =~= q);
    assert(posix@ =~= posix_path(path@));
    let s = crate::text::string_from_chars(posix.as_slice());
    let bytes = s.as_str().as_bytes();
    let mut out: Vec<u8> = Vec::new();
    let prefix: [u8; 16] = [0x66, 0x69, 0x6c, 0x65, 0x3a, 0x2f, 0x2f, 0x6c, 0x6f, 0x63, 0x61, 0x6c, 0x68, 0x6f, 0x73, 0x74];
    crate::bytes::push_all(&mut out, &prefix);
    assert(out@ =~= localhost_prefix());
    let mut j: usize = 0;
    while j < bytes.len()
        invariant
            j <= bytes@.len(),
            out@ == localhost_prefix() + pct_encode(bytes@.take(j as int)),
        decreases bytes@.len() - j,
    {
        let b = bytes[j];
        let keep = (0x41 <= b && b <= 0x5a) || (0x61 <= b && b <= 0x7a) || (0x30 <= b && b <= 0x39)
            || b == 0x2d || b == 0x2e || b == 0x5f || b == 0x7e || b == 0x2f || b == 0x3a;
        if keep {
            out.push(b);
        } else {
            let hi = b / 16;
            let lo = b % 16;
            out.push(0x25);
            out.push(if hi < 10 { 0x30 + hi } else { 0x37 + hi });
            out.push(if lo < 10 { 0x30 + lo } else { 0x37 + lo });
        }
        proof {
            assert(bytes@.take(j + 1) =~= bytes@.take(j as int).push(b));
            lemma_pct_encode_push(bytes@.take(j as int), b);
        }
        j = j + 1;
        assert(out@ =~= localhost_prefix() + pct_encode(bytes@.take(j as int)));
    }
    assert(bytes@.take(j as int) =~= bytes@);
    let mut cs: Vec<char> = Vec::new();
    let mut k: usize = 0;
    while k < out.len()
        invariant
            k <= out@.len(),
            cs@ == ascii_chars(out@.take(k as int)),
        decreases out@.len() - k,
    {
        cs.push(out[k] as char);
        k = k + 1;
        assert(cs@ =~= ascii_chars(out@.take(k as int)));
    }
    assert(out@.take(k as int) =~= out@);
    crate::text::string_from_chars(cs.as_slice())
}

/// Characters FAT32 and exFAT refuse in a file name; they become `_`.
pub open spec fn forbidden(c: char) -> bool {
    c == '<' || c == '>' || c == ':' || c == '"' || c == '/' || c == '\\' || c == '|' || c == '?' || c == '*'
}

/// A control character (below U+0020); it is dropped.
pub open spec fn is_control(c: char) -> bool {
    (c as u32) < 0x20
}

/// `s` with its control characters dropped and its forbidden characters
/// replaced by `_`.
pub open spec fn cleaned(s: Seq<char>) -> Seq<char>
    decreases s.len(),
{
    if s.len() == 0 {
        s
    } else if is_control(s.last()) {
        cleaned(s.drop_last())
    } else {
        cleaned(s.drop_last()).push(if forbidden(s.last()) { '_' } else { s.last() })
    }
}

/// `s` without trailing dots and spaces.
pub open spec fn trim_dots_spaces(s: Seq<char>) -> Seq<char>
    decreases s.len(),
{
    if s.len() > 0 && (s.last() == '.' || s.last() == ' ') { trim_dots_spaces(s.drop_last()) } else { s }
}

/// The sanitized form of a file name.
pub open spec fn spec_sanitize(name: Seq<char>) -> Seq<char> {
    let t = trim_dots_spaces(cleaned(name));
    if t.len() == 0 { seq!['t', 'r', 'a', 'c', 'k'] } else { t }
}

/// Sanitize a file name for FAT32/exFAT sticks: replace forbidden
/// characters with `_`, strip control characters, trim trailing dots and
/// spaces, and name an empty result `track`.
pub fn sanitize_filename(name: &str) -> (out: String)
    ensures
        out@ == spec_sanitize(name@),
{
    let chars = crate::text::chars_of(name);
    let mut v: Vec<char> = Vec::new();
    let mut i: usize = 0;
    while i < chars.len()
        invariant
            i <= chars@.len(),
            chars@ == name@,
            v@ == cleaned(chars@.take(i as int)),
        decreases chars@.len() - i,
    {
        let c = chars[i];
        proof {
            assert(chars@.take(i + 1).drop_last() =~= chars@.take(i as int));
            assert(chars@.take(i + 1).last() == c);
        }
        if (c as u32) >= 0x20 {
            let bad = c == '<' || c == '>' || c == ':' || c == '"' || c == '/' || c == '\\' || c == '|'
                || c == '?' || c == '*';
            v.push(if bad { '_' } else { c });
        }
        i = i + 1;
    }
    assert(chars@.take(i as int) =~= chars@);
    let ghost cl = v@;
    while v.len() > 0 && (v[v.len() - 1] == '.' || v[v.len() - 1] == ' ')
        invariant
            trim_dots_spaces(v@) == trim_dots_spaces(cl),
        decreases v@.len(),
    {
        v.pop();
    }
    if v.len() == 0 {
        v.push('t');
        v.push('r');
        v.push('a');
        v.push('c');
        v.push('k');
        assert(v@ =~= seq!['t', 'r', 'a', 'c', 'k']);
    }
    crate::text::string_from_chars(v.as_slice())
}

/// Every byte is ASCII.
pub open spec fn all_ascii(s: Seq<u8>) -> bool {
    forall|i: int| 0 <= i < s.len() ==> #[trigger] s[i] < 0x80
}

/// ASCII bytes read as characters encode back to themselves.
proof fn lemma_ascii_encode(s: Seq<u8>)
    requires
        all_ascii(s),
    ensures
        encode_utf8(ascii_chars(s)) == s,
        valid_utf8(s),
    decreases s.len(),
{
    if s.len() > 0 {
        let c = ascii_chars(s);
        let x = s[0];
        assert(c.drop_first() =~= ascii_chars(s.drop_first()));
        assert(all_ascii(s.drop_first()));
        lemma_ascii_encode(s.drop_first());
        assert(x < 0x80);
        assert(c[0] as u32 == x as u32);
        assert((((x as u32) & 0x7f) as u8) == x) by (bit_vector)
            requires
                x < 0x80,
        ;
        assert(encode_scalar(c[0] as u32) =~= seq![x]);
        assert(s =~= seq![x] + s.drop_first());
    }
    vstd::utf8::encode_utf8_valid_utf8(ascii_chars(s));
}

/// Percent-encoding yields ASCII.
proof fn lemma_pct_encode_ascii(b: Seq<u8>)
    ensures
        all_ascii(pct_encode(b)),
    decreases b.len(),
{
    if b.len() > 0 {
        lemma_pct_encode_ascii(b.drop_first());
        let e = escape_byte(b[0]);
        let r = pct_encode(b.drop_first());
        assert forall|i: int| 0 <= i < pct_encode(b).len() implies #[trigger] pct_encode(b)[i] < 0x80 by {
            if i < e.len() {
                assert(pct_encode(b)[i] == e[i]);
            } else {
                assert(pct_encode(b)[i] == r[i - e.len()]);
            }
        }
    }
}

/// Decoding from a position inside the second part of `a + b` does not see `a`.
proof fn lemma_pct_decode_shift(a: Seq<u8>, b: Seq<u8>, i: int)
    requires
        0 <= i <= b.len(),
    ensures
        pct_decode(a + b, a.len() + i) == pct_decode(b, i),
    decreases b.len() - i,
{
    let ab = a + b;
    let j = a.len() + i;
    if i < b.len() {
        assert(ab[j] == b[i]);
        if b[i] == 0x25 && i + 2 < b.len() {
            assert(ab.subrange(j + 1, j + 3) =~= b.subrange(i + 1, i + 3));
            assert(ab[j + 1] == b[i + 1]);
            assert(ab[j + 2] == b[i + 2]);
            lemma_pct_decode_shift(a, b, i + 3);
        } else {
            lemma_pct_decode_shift(a, b, i + 1);
        }
    }
}

/// Percent-decoding undoes percent-encoding.
proof fn lemma_pct_round_trip(b: Seq<u8>)
    ensures
        pct_decode(pct_encode(b), 0) == Ok::<Seq<u8>, LocationError>(b),
    decreases b.len(),
{
    if b.len() == 0 {
        assert(pct_encode(b) =~= Seq::<u8>::empty());
        assert(b =~= Seq::<u8>::empty());
    } else {
        let x = b[0];
        let e = escape_byte(x);
        let r = pct_encode(b.drop_first());
        let all = pct_encode(b);
        assert(all == e + r);
        lemma_pct_round_trip(b.drop_first());
        lemma_pct_decode_shift(e, r, 0);
        assert(b =~= seq![x] + b.drop_first());
        if unreserved(x) {
            assert(all[0] == x);
            assert(x != 0x25);
            assert(e.len() == 1);
            assert(pct_decode(all, 1) == Ok::<Seq<u8>, LocationError>(b.drop_first()));
            assert(pct_decode(all, 0) == Ok::<Seq<u8>, LocationError>(seq![x] + b.drop_first()));
        } else {
            let hi = (x / 16) as u8;
            let lo = (x % 16) as u8;
            assert(all[0] == 0x25u8);
            assert(all[1] == hex_upper_digit(hi));
            assert(all[2] == hex_upper_digit(lo));
            assert(all_ascii(all.subrange(1, 3)));
            lemma_ascii_encode(all.subrange(1, 3));
            assert(hex_val(hex_upper_digit(hi)) == Some(hi));
            assert(hex_val(hex_upper_digit(lo)) == Some(lo));
            assert(hex_upper_digit(hi) != 0x2b);
            assert(hi * 16 + lo == x);
            assert(escape_value(all[1], all[2]) == Some(x));
            assert(e.len() == 3);
            assert(pct_decode(all, 3) == Ok::<Seq<u8>, LocationError>(b.drop_first()));
            assert(pct_decode(all, 0) == Ok::<Seq<u8>, LocationError>(seq![x] + b.drop_first()));
        }
    }
}

/// A path encoded as a `Location` decodes to the same path in POSIX form
/// (forward slashes, a leading `/`), with a drive path's leading `/`
/// dropped again.
pub proof fn lemma_decode_encode_location(p: Seq<char>)
    ensures
        spec_decode_location(spec_encode_location(p))
            == Ok::<Seq<char>, LocationError>(path_of(encode_utf8(posix_path(p)))),
{
    let b = encode_utf8(posix_path(p));
    let bytes = localhost_prefix() + pct_encode(b);
    lemma_pct_encode_ascii(b);
    assert(all_ascii(bytes)) by {
        assert forall|i: int| 0 <= i < bytes.len() implies #[trigger] bytes[i] < 0x80 by {
            if i >= 16 {
                assert(bytes[i] == pct_encode(b)[i - 16]);
            }
        }
    }
    lemma_ascii_encode(bytes);
    assert(bytes.take(16) =~= localhost_prefix());
    assert(bytes.skip(16) =~= pct_encode(b));
    lemma_pct_round_trip(b);
    vstd::utf8::encode_utf8_valid_utf8(posix_path(p));
}


/// The first three bytes of the encoding of a text starting with three
/// ASCII characters are those characters.
proof fn lemma_encode_ascii_head(s: Seq<char>)
    requires
        s.len() >= 3,
        '\0' <= s[0] <= '\u{7f}',
        '\0' <= s[1] <= '\u{7f}',
        '\0' <= s[2] <= '\u{7f}',
    ensures
        encode_utf8(s).len() > 2,
        encode_utf8(s)[0] == s[0] as u8,
        encode_utf8(s)[2] == s[2] as u8,
{
    let s1 = s.drop_first();
    let s2 = s1.drop_first();
    assert(s1[0] == s[1] && s2[0] == s[2]);
    assert forall|i: int| 0 <= i < 1 implies '\0' <= #[trigger] seq![s[0]][i] <= '\u{7f}' by {
        assert(seq![s[0]][i] == s[0]);
    }
    assert forall|i: int| 0 <= i < 1 implies '\0' <= #[trigger] seq![s1[0]][i] <= '\u{7f}' by {
        assert(seq![s1[0]][i] == s1[0]);
    }
    assert forall|i: int| 0 <= i < 1 implies '\0' <= #[trigger] seq![s2[0]][i] <= '\u{7f}' by {
        assert(seq![s2[0]][i] == s2[0]);
    }
    vstd::utf8::is_ascii_chars_encode_utf8(seq![s[0]]);
    vstd::utf8::is_ascii_chars_encode_utf8(seq![s1[0]]);
    vstd::utf8::is_ascii_chars_encode_utf8(seq![s2[0]]);
    assert(encode_utf8(seq![s[0]]) =~= vstd::utf8::encode_scalar(s[0] as u32));
    assert(encode_utf8(seq![s1[0]]) =~= vstd::utf8::encode_scalar(s1[0] as u32));
    assert(encode_utf8(seq![s2[0]]) =~= vstd::utf8::encode_scalar(s2[0] as u32));
    assert(encode_utf8(s) == vstd::utf8::encode_scalar(s[0] as u32) + encode_utf8(s1));
    assert(encode_utf8(s1) == vstd::utf8::encode_scalar(s1[0] as u32) + encode_utf8(s2));
    assert(encode_utf8(s2) == vstd::utf8::encode_scalar(s2[0] as u32) + encode_utf8(s2.drop_first()));
}

/// A path put into a `Location` and read back holds no backslash: every
/// `\` of a Windows path is written as `/`. What comes back is the path
/// with its backslashes turned into slashes, possibly with a `/` added in
/// front (a relative path) or taken off (a path whose third character is
/// the `:` of a drive).
pub proof fn lemma_location_has_forward_slashes(p: Seq<char>)
    ensures
        ({
            let q = p.map_values(|c: char| if c == '\\' { '/' } else { c });
            spec_decode_location(spec_encode_location(p)) matches Ok(d) && {
                &&& !d.contains('\\')
                &&& (d == q || d == seq!['/'] + q || (q.len() > 0 && q[0] == '/' && d == q.drop_first()))
            }
        }),
{
    lemma_decode_encode_location(p);
    let pp = posix_path(p);
    vstd::utf8::encode_utf8_decode_utf8(pp);
    let q = p.map_values(|c: char| if c == '\\' { '/' } else { c });
    assert(!pp.contains('\\')) by {
        if pp.contains('\\') {
            let i = choose|i: int| 0 <= i < pp.len() && pp[i] == '\\';
            if q.len() > 0 && q[0] == '/' {
                assert(q[i] == '\\');
            } else {
                assert((seq!['/'] + q)[i] == '\\');
                assert(q[i - 1] == '\\');
            }
        }
    }
    let d = path_of(encode_utf8(pp));
    if d != pp {
        assert(d == pp.drop_first());
        assert(!d.contains('\\')) by {
            if d.contains('\\') {
                let i = choose|i: int| 0 <= i < d.len() && d[i] == '\\';
                assert(pp[i + 1] == '\\');
            }
        }
        if !(q.len() > 0 && q[0] == '/') {
            assert((seq!['/'] + q).drop_first() =~= q);
        }
    }
}

/// A Windows drive path (`C:\Music\track.mp3`) put into a `Location` and
/// read back is the same path with forward slashes
/// (`C:/Music/track.mp3`).
pub proof fn lemma_windows_location_round_trip(p: Seq<char>)
    requires
        p.len() >= 2,
        ('A' <= p[0] <= 'Z') || ('a' <= p[0] <= 'z'),
        p[1] == ':',
    ensures
        spec_decode_location(spec_encode_location(p))
            == Ok::<Seq<char>, LocationError>(p.map_values(|c: char| if c == '\\' { '/' } else { c })),
{
    lemma_decode_encode_location(p);
    let q = p.map_values(|c: char| if c == '\\' { '/' } else { c });
    let pp = posix_path(p);
    assert(q[0] == p[0] && q[1] == ':');
    assert(pp =~= seq!['/'] + q);
    lemma_encode_ascii_head(pp);
    vstd::utf8::encode_utf8_decode_utf8(pp);
    assert(pp.drop_first() =~= q);
}


/// A character a `Location` keeps as it is: an ASCII letter or digit,
/// `-`, `.`, `_`, `~`, `/` or `:`.
pub open spec fn plain_char(c: char) -> bool {
    ||| 'A' <= c <= 'Z'
    ||| 'a' <= c <= 'z'
    ||| '0' <= c <= '9'
    ||| c == '-' || c == '.' || c == '_' || c == '~' || c == '/' || c == ':'
}

/// An upper-case hex digit.
pub open spec fn upper_hex_char(c: char) -> bool {
    ('0' <= c <= '9') || ('A' <= c <= 'F')
}

proof fn lemma_pct_encode_shape(b: Seq<u8>)
    ensures
        forall|i: int| 0 <= i < pct_encode(b).len() ==> unreserved(#[trigger] pct_encode(b)[i]) || pct_encode(b)[i] == 0x25,
        forall|i: int| 0 <= i < pct_encode(b).len() && #[trigger] pct_encode(b)[i] == 0x25 ==> {
            &&& i + 2 < pct_encode(b).len()
            &&& (0x30 <= pct_encode(b)[i + 1] <= 0x39 || 0x41 <= pct_encode(b)[i + 1] <= 0x46)
            &&& (0x30 <= pct_encode(b)[i + 2] <= 0x39 || 0x41 <= pct_encode(b)[i + 2] <= 0x46)
        },
    decreases b.len(),
{
    if b.len() > 0 {
        lemma_pct_encode_shape(b.drop_first());
        let e = escape_byte(b[0]);
        let r = pct_encode(b.drop_first());
        let all = pct_encode(b);
        assert(all == e + r);
        assert forall|i: int| 0 <= i < all.len() implies unreserved(#[trigger] all[i]) || all[i] == 0x25 by {
            if i >= e.len() {
                assert(all[i] == r[i - e.len()]);
            } else if !unreserved(b[0]) {
                assert(b[0] / 16 < 16 && b[0] % 16 < 16);
            }
        }
        assert forall|i: int| 0 <= i < all.len() && #[trigger] all[i] == 0x25 implies {
            &&& i + 2 < all.len()
            &&& (0x30 <= all[i + 1] <= 0x39 || 0x41 <= all[i + 1] <= 0x46)
            &&& (0x30 <= all[i + 2] <= 0x39 || 0x41 <= all[i + 2] <= 0x46)
        } by {
            if i >= e.len() {
                assert(all[i] == r[i - e.len()]);
                assert(all[i + 1] == r[i + 1 - e.len()]);
                assert(all[i + 2] == r[i + 2 - e.len()]);
            }
        }
    }
}

/// A `Location` is `file://localhost/` followed by characters a
/// `Location` keeps as they are and `%` escapes, each `%` followed by two
/// upper-case hex digits.
pub proof fn lemma_location_shape(p: Seq<char>)
    ensures
        ({
            let l = spec_encode_location(p);
            &&& l.len() > 16
            &&& l.take(17) == "file://localhost/"@
            &&& forall|i: int| 16 <= i < l.len() ==> plain_char(#[trigger] l[i]) || l[i] == '%'
            &&& forall|i: int| 16 <= i < l.len() && #[trigger] l[i] == '%' ==>
                i + 2 < l.len() && upper_hex_char(l[i + 1]) && upper_hex_char(l[i + 2])
        }),
{
    reveal_strlit("file://localhost/");
    let pp = posix_path(p);
    let b = encode_utf8(pp);
    let enc = pct_encode(b);
    let bytes = localhost_prefix() + enc;
    let l = spec_encode_location(p);
    lemma_pct_encode_shape(b);
    assert(pp.len() > 0 && pp[0] == '/');
    vstd::utf8::encode_utf8_first_scalar(pp);
    assert(b.len() > 0 && b[0] == 0x2f) by {
        assert(vstd::utf8::is_ascii_chars(seq![pp[0]])) by {
            assert forall|i: int| 0 <= i < 1 implies '\0' <= #[trigger] seq![pp[0]][i] <= '\u{7f}' by {
                assert(seq![pp[0]][i] == pp[0]);
            }
        }
        vstd::utf8::is_ascii_chars_encode_utf8(seq![pp[0]]);
        assert(encode_utf8(seq![pp[0]]) =~= vstd::utf8::encode_scalar(pp[0] as u32));
        assert(b == vstd::utf8::encode_scalar(pp[0] as u32) + encode_utf8(pp.drop_first()));
    }
    assert(enc[0] == 0x2f);
    assert(l.len() == bytes.len());
    assert forall|i: int| 0 <= i < l.len() implies #[trigger] l[i] == bytes[i] as char by {}
    assert(l.take(17) =~= "file://localhost/"@);
    assert forall|i: int| 16 <= i < l.len() implies plain_char(#[trigger] l[i]) || l[i] == '%' by {
        assert(bytes[i] == enc[i - 16]);
        assert(unreserved(enc[i - 16]) || enc[i - 16] == 0x25);
        assert(l[i] == bytes[i] as char);
    }
    assert forall|i: int| 16 <= i < l.len() && #[trigger] l[i] == '%' implies
        i + 2 < l.len() && upper_hex_char(l[i + 1]) && upper_hex_char(l[i + 2]) by {
        assert(bytes[i] == enc[i - 16]);
        assert(bytes[i + 1] == enc[i - 15]);
        assert(bytes[i + 2] == enc[i - 14]);
    }
}


proof fn lemma_pct_encode_unreserved(b: Seq<u8>)
    requires
        forall|i: int| 0 <= i < b.len() ==> unreserved(#[trigger] b[i]),
    ensures
        pct_encode(b) == b,
    decreases b.len(),
{
    if b.len() > 0 {
        assert(unreserved(b[0]));
        lemma_pct_encode_unreserved(b.drop_first());
        assert(seq![b[0]] + b.drop_first() =~= b);
    }
}

/// A path starting with `/` made only of characters a `Location` keeps
/// is written after `file://localhost` exactly as it is.
pub proof fn lemma_plain_path_location(p: Seq<char>)
    requires
        p.len() > 0,
        p[0] == '/',
        forall|i: int| 0 <= i < p.len() ==> plain_char(#[trigger] p[i]),
    ensures
        spec_encode_location(p) == "file://localhost"@ + p,
{
    reveal_strlit("file://localhost");
    let q = p.map_values(|c: char| if c == '\\' { '/' } else { c });
    assert(q =~= p);
    assert(posix_path(p) == p);
    assert(vstd::utf8::is_ascii_chars(p)) by {
        assert forall|i: int| 0 <= i < p.len() implies '\0' <= #[trigger] p[i] <= '\u{7f}' by {
            assert(plain_char(p[i]));
        }
    }
    vstd::utf8::is_ascii_chars_encode_utf8(p);
    let b = encode_utf8(p);
    assert forall|i: int| 0 <= i < b.len() implies unreserved(#[trigger] b[i]) by {
        assert(plain_char(p[i]));
        assert(b[i] == p[i] as u8);
    }
    lemma_pct_encode_unreserved(b);
    let l = spec_encode_location(p);
    let bytes = localhost_prefix() + b;
    assert(l == ascii_chars(bytes));
    assert forall|i: int| 0 <= i < l.len() implies #[trigger] l[i] == ("file://localhost"@ + p)[i] by {
        if i >= 16 {
            assert(bytes[i] == b[i - 16]);
            assert(plain_char(p[i - 16]));
        }
    }
    assert(l =~= "file://localhost"@ + p);
}

}
