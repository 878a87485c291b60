//! Character-level helpers shared by every format module.
use vstd::prelude::*;

verus! {

/// `c` with ASCII upper case mapped to lower case.
pub open spec fn ascii_lower_char(c: char) -> char {
    if 'A' <= c <= 'Z' { ((c as u32) + 32) as char } else { c }
}

/// `s` with ASCII upper case mapped to lower case.
pub open spec fn ascii_lower(s: Seq<char>) -> Seq<char> {
    s.map_values(|c: char| ascii_lower_char(c))
}

/// `c` with ASCII upper case mapped to lower case.
pub fn lower_char(c: char) -> (r: char)
    ensures
        r == ascii_lower_char(c),
{
    if 'A' <= c && c <= 'Z' {
        ((c as u8) + 32) as char
    } else {
        c
    }
}

/// The characters of `s` with ASCII upper case mapped to lower case.
pub fn ascii_lowercase(s: &str) -> (out: Vec<char>)
    ensures
        out@ == ascii_lower(s@),
{
    let cs = chars_of(s);
    let mut out: Vec<char> = Vec::new();
    let mut i: usize = 0;
    while i < cs.len()
        invariant
            cs@ == s@,
            i <= cs@.len(),
            out@ == ascii_lower(cs@.take(i as int)),
        decreases cs@.len() - i,
    {
        out.push(lower_char(cs[i]));
        i = i + 1;
        assert(out@ =~= ascii_lower(cs@.take(i as int)));
    }
    assert(cs@.take(i as int) =~= cs@);
    out
}

/// Whether two character sequences are equal.
pub fn chars_eq(a: &[char], b: &[char]) -> (r: bool)
    ensures
        r == (a@ == b@),
{
    if a.len() != b.len() {
        return false;
    }
    let mut i: usize = 0;
    while i < a.len()
        invariant
            a@.len() == b@.len(),
            i <= a@.len(),
            forall|j: int| 0 <= j < i ==> a@[j] == b@[j],
        decreases a@.len() - i,
    {
        if a[i] != b[i] {
            return false;
        }
        i = i + 1;
    }
    assert(a@ =~= b@);
    true
}

/// The characters of `s`, in order.
pub fn chars_of(s: &str) -> (out: Vec<char>)
    ensures
        out@ == s@,
{
    let mut out: Vec<char> = Vec::new();
    for c in it: s.chars()
        invariant
            out@ == it.seq().take(it.index() as int),
    {
        out.push(c);
    }
    out
}

/// The UTF-16 code units of one character.
pub open spec fn units_of(c: char) -> Seq<u16> {
    let v = c as u32;
    if v < 0x10000 {
        seq![v as u16]
    } else {
        let w = v as int - 0x10000;
        seq![(0xD800 + w / 1024) as u16, (0xDC00 + w % 1024) as u16]
    }
}

/// The UTF-16 encoding of `s`.
pub open spec fn utf16_encode(s: Seq<char>) -> Seq<u16>
    decreases s.len(),
{
    if s.len() == 0 { seq![] } else { units_of(s[0]) + utf16_encode(s.drop_first()) }
}

/// UTF-16 decoding that replaces every unpaired surrogate with U+FFFD.
pub open spec fn utf16_decode(u: Seq<u16>) -> Seq<char>
    decreases u.len(),
{
    if u.len() == 0 {
        seq![]
    } else {
        let a = u[0];
        if 0xD800 <= a < 0xDC00 && u.len() >= 2 && 0xDC00 <= u[1] < 0xE000 {
            seq![(0x10000 + (a - 0xD800) * 1024 + (u[1] - 0xDC00)) as char] + utf16_decode(u.subrange(2, u.len() as int))
        } else if 0xD800 <= a < 0xE000 {
            seq!['\u{FFFD}'] + utf16_decode(u.drop_first())
        } else {
            seq![a as char] + utf16_decode(u.drop_first())
        }
    }
}

/// Encoding one more character appends its code units.
pub proof fn lemma_utf16_encode_push(s: Seq<char>, c: char)
    ensures
        utf16_encode(s.push(c)) == utf16_encode(s) + units_of(c),
    decreases s.len(),
{
    if s.len() == 0 {
        assert(s.push(c).drop_first() =~= seq![]);
        assert(utf16_encode(seq![]) == Seq::<u16>::empty());
        assert(utf16_encode(s.push(c)) =~= utf16_encode(s) + units_of(c));
    } else {
        lemma_utf16_encode_push(s.drop_first(), c);
        assert(s.push(c).drop_first() =~= s.drop_first().push(c));
        assert(utf16_encode(s.push(c)) =~= utf16_encode(s) + units_of(c));
    }
}

/// Decoding the UTF-16 encoding of a string gives the string back.
pub proof fn lemma_utf16_round_trip(s: Seq<char>)
    ensures
        utf16_decode(utf16_encode(s)) == s,
    decreases s.len(),
{
    if s.len() > 0 {
        let c = s[0];
        let rest = utf16_encode(s.drop_first());
        let e = utf16_encode(s);
        lemma_utf16_round_trip(s.drop_first());
        let v = c as u32;
        vstd::utf8::char_is_scalar(c);
        vstd::utf8::char_u32_cast(c, v);
        if v < 0x10000 {
            assert(e == seq![v as u16] + rest);
            assert(e.drop_first() =~= rest);
            assert(!(0xD800 <= v < 0xE000));
            assert(((v as u16) as u32) == v);
        } else {
            let w = v as int - 0x10000;
            assert(w < 0x100000);
            assert(0 <= w / 1024 < 1024);
            assert(w / 1024 * 1024 + w % 1024 == w);
            assert(e == seq![(0xD800 + w / 1024) as u16, (0xDC00 + w % 1024) as u16] + rest);
            assert(e.subrange(2, e.len() as int) =~= rest);
        }
        assert(utf16_decode(e) =~= seq![c] + s.drop_first());
        assert(seq![c] + s.drop_first() =~= s);
    }
}

/// The UTF-16 code units of `s`.
pub fn encode_utf16(s: &str) -> (out: Vec<u16>)
    ensures
        out@ == utf16_encode(s@),
{
    let cs = chars_of(s);
    let mut out: Vec<u16> = Vec::new();
    let mut i: usize = 0;
    while i < cs.len()
        invariant
            cs@ == s@,
            i <= cs@.len(),
            out@ == utf16_encode(cs@.take(i as int)),
        decreases cs@.len() - i,
    {
        let c = cs[i];
        let v = c as u32;
        proof {
            lemma_utf16_encode_push(cs@.take(i as int), c);
            assert(cs@.take(i as int).push(c) =~= cs@.take(i + 1));
        }
        if v < 0x10000 {
            out.push(v as u16);
        } else {
            let w = v - 0x10000;
            out.push((0xD800 + w / 1024) as u16);
            out.push((0xDC00 + w % 1024) as u16);
        }
        i = i + 1;
        assert(out@ =~= utf16_encode(cs@.take(i as int)));
    }
    assert(cs@.take(i as int) =~= cs@);
    out
}

/// The character with scalar value `v`, when there is one.
#[verifier::external_body]
fn char_from_u32(v: u32) -> (c: Option<char>)
    ensures
        (0 <= v < 0xD800 || 0xE000 <= v <= 0x10FFFF) ==> c == Some(v as char),
        !(0 <= v < 0xD800 || 0xE000 <= v <= 0x10FFFF) ==> c is None,
{
    char::from_u32(v)
}

/// UTF-16 decoding that replaces every unpaired surrogate with U+FFFD.
pub fn decode_utf16_lossy(units: &[u16]) -> (out: Vec<char>)
    ensures
        out@ == utf16_decode(units@),
{
    let mut out: Vec<char> = Vec::new();
    let mut i: usize = 0;
    assert(units@.subrange(0, units@.len() as int) =~= units@);
    assert(out@ + utf16_decode(units@) =~= utf16_decode(units@));
    while i < units.len()
        invariant
            i <= units@.len(),
            out@ + utf16_decode(units@.subrange(i as int, units@.len() as int)) == utf16_decode(units@),
        decreases units@.len() - i,
    {
        let ghost tail = units@.subrange(i as int, units@.len() as int);
        let a = units[i];
        if 0xD800 <= a && a < 0xDC00 && i + 1 < units.len() && 0xDC00 <= units[i + 1] && units[i + 1] < 0xE000 {
            let b = units[i + 1];
            let v: u32 = 0x10000 + (a as u32 - 0xD800) * 1024 + (b as u32 - 0xDC00);
            let c = match char_from_u32(v) {
                Some(c) => c,
                None => '\u{FFFD}',
            };
            proof {
                assert(tail.subrange(2, tail.len() as int) =~= units@.subrange(i + 2, units@.len() as int));
                assert(utf16_decode(tail) == seq![c] + utf16_decode(tail.subrange(2, tail.len() as int)));
                assert(out@.push(c) + utf16_decode(units@.subrange(i + 2, units@.len() as int)) =~= out@ + utf16_decode(tail));
            }
            out.push(c);
            i = i + 2;
        } else {
            let c = if 0xD800 <= a && a < 0xE000 {
                '\u{FFFD}'
            } else {
                match char_from_u32(a as u32) {
                    Some(c) => c,
                    None => '\u{FFFD}',
                }
            };
            proof {
                assert(tail.drop_first() =~= units@.subrange(i + 1, units@.len() as int));
                assert(utf16_decode(tail) == seq![c] + utf16_decode(tail.drop_first()));
                assert(out@.push(c) + utf16_decode(units@.subrange(i + 1, units@.len() as int)) =~= out@ + utf16_decode(tail));
            }
            out.push(c);
            i = i + 1;
        }
    }
    assert(units@.subrange(i as int, units@.len() as int) =~= seq![]);
    assert(out@ + seq![] =~= out@);
    out
}

/// A `String` holding exactly `cs`.
#[verifier::external_body]
pub fn string_from_chars(cs: &[char]) -> (s: String)
    ensures
        s@ == cs@,
{
    cs.iter().collect()
}

/// What `String::from_utf8_lossy` makes of `bytes`.
pub uninterp spec fn utf8_lossy(bytes: Seq<u8>) -> Seq<char>;

/// `String::from_utf8_lossy`: valid UTF-8 decodes exactly; invalid
/// sequences become U+FFFD in a way that is not stated here.
#[verifier::external_body]
pub fn from_utf8_lossy(bytes: &[u8]) -> (s: String)
    ensures
        s@ == utf8_lossy(bytes@),
        vstd::utf8::valid_utf8(bytes@) ==> s@ == vstd::utf8::decode_utf8(bytes@),
{
    String::from_utf8_lossy(bytes).into_owned()
}

/// Appends one character.
#[verifier::external_body]
pub fn push_char(s: &mut String, c: char)
    ensures
        final(s)@ == old(s)@.push(c),
{
    s.push(c)
}

/// The bytes of `u` each written little-endian.
pub open spec fn le16_bytes(u: Seq<u16>) -> Seq<u8>
    decreases u.len(),
{
    if u.len() == 0 { seq![] } else { crate::bytes::le16(u[0]) + le16_bytes(u.drop_first()) }
}

/// The bytes of `u` each written big-endian.
pub open spec fn be16_bytes(u: Seq<u16>) -> Seq<u8>
    decreases u.len(),
{
    if u.len() == 0 { seq![] } else { crate::bytes::be16(u[0]) + be16_bytes(u.drop_first()) }
}

/// Little-endian units read two bytes at a time; a trailing odd byte is dropped.
pub open spec fn le16_units(b: Seq<u8>) -> Seq<u16>
    decreases b.len(),
{
    if b.len() < 2 { seq![] } else { seq![crate::bytes::u16_from_be(b[1], b[0])] + le16_units(b.subrange(2, b.len() as int)) }
}

/// Big-endian units read two bytes at a time; a trailing odd byte is dropped.
pub open spec fn be16_units(b: Seq<u8>) -> Seq<u16>
    decreases b.len(),
{
    if b.len() < 2 { seq![] } else { seq![crate::bytes::u16_from_be(b[0], b[1])] + be16_units(b.subrange(2, b.len() as int)) }
}

/// Reading little-endian units back from their bytes gives the units.
pub proof fn lemma_le16_round_trip(u: Seq<u16>)
    ensures
        le16_units(le16_bytes(u)) == u,
        le16_bytes(u).len() == 2 * u.len(),
    decreases u.len(),
{
    if u.len() > 0 {
        lemma_le16_round_trip(u.drop_first());
        let b = le16_bytes(u);
        crate::bytes::lemma_u16_round_trip(u[0]);
        assert(b.subrange(2, b.len() as int) =~= le16_bytes(u.drop_first()));
        assert(le16_units(b) =~= u);
    }
}

/// Reading big-endian units back from their bytes gives the units.
pub proof fn lemma_be16_round_trip(u: Seq<u16>)
    ensures
        be16_units(be16_bytes(u)) == u,
        be16_bytes(u).len() == 2 * u.len(),
    decreases u.len(),
{
    if u.len() > 0 {
        lemma_be16_round_trip(u.drop_first());
        let b = be16_bytes(u);
        crate::bytes::lemma_u16_round_trip(u[0]);
        assert(b.subrange(2, b.len() as int) =~= be16_bytes(u.drop_first()));
        assert(be16_units(b) =~= u);
    }
}

/// Appends every unit little-endian.
pub fn push_le16_units(out: &mut Vec<u8>, u: &[u16])
    ensures
        final(out)@ == old(out)@ + le16_bytes(u@),
{
    let mut i: usize = 0;
    assert(u@.subrange(0, u@.len() as int) =~= u@);
    while i < u.len()
        invariant
            i <= u@.len(),
            out@ + le16_bytes(u@.subrange(i as int, u@.len() as int)) == old(out)@ + le16_bytes(u@),
        decreases u@.len() - i,
    {
        let ghost tail = u@.subrange(i as int, u@.len() as int);
        proof { assert(tail.drop_first() =~= u@.subrange(i + 1, u@.len() as int)); }
        let ghost before = out@;
        crate::bytes::push_le16(out, u[i]);
        assert(before + le16_bytes(tail) =~= out@ + le16_bytes(tail.drop_first()));
        i = i + 1;
    }
    assert(u@.subrange(i as int, u@.len() as int) =~= seq![]);
    assert(out@ + seq![] =~= out@);
}

/// Appends every unit big-endian.
pub fn push_be16_units(out: &mut Vec<u8>, u: &[u16])
    ensures
        final(out)@ == old(out)@ + be16_bytes(u@),
{
    let mut i: usize = 0;
    assert(u@.subrange(0, u@.len() as int) =~= u@);
    while i < u.len()
        invariant
            i <= u@.len(),
            out@ + be16_bytes(u@.subrange(i as int, u@.len() as int)) == old(out)@ + be16_bytes(u@),
        decreases u@.len() - i,
    {
        let ghost tail = u@.subrange(i as int, u@.len() as int);
        proof { assert(tail.drop_first() =~= u@.subrange(i + 1, u@.len() as int)); }
        let ghost before = out@;
        crate::bytes::push_be16(out, u[i]);
        assert(before + be16_bytes(tail) =~= out@ + be16_bytes(tail.drop_first()));
        i = i + 1;
    }
    assert(u@.subrange(i as int, u@.len() as int) =~= seq![]);
    assert(out@ + seq![] =~= out@);
}

/// Little-endian units read two bytes at a time; a trailing odd byte is dropped.
pub fn read_le16_units(b: &[u8]) -> (u: Vec<u16>)
    ensures
        u@ == le16_units(b@),
{
    let mut u: Vec<u16> = Vec::new();
    let mut i: usize = 0;
    assert(b@.subrange(0, b@.len() as int) =~= b@);
    assert(u@ + le16_units(b@) =~= le16_units(b@));
    while i < b.len() && b.len() - i >= 2
        invariant
            i <= b@.len(),
            u@ + le16_units(b@.subrange(i as int, b@.len() as int)) == le16_units(b@),
        decreases b@.len() - i,
    {
        let ghost tail = b@.subrange(i as int, b@.len() as int);
        proof { assert(tail.subrange(2, tail.len() as int) =~= b@.subrange(i + 2, b@.len() as int)); }
        let v = crate::bytes::get_le16(b, i);
        proof {
            assert(u@.push(v) + le16_units(b@.subrange(i + 2, b@.len() as int)) =~= u@ + le16_units(tail));
        }
        u.push(v);
        i = i + 2;
    }
    assert(le16_units(b@.subrange(i as int, b@.len() as int)) =~= seq![]);
    assert(u@ + seq![] =~= u@);
    u
}

/// Big-endian units read two bytes at a time; a trailing odd byte is dropped.
pub fn read_be16_units(b: &[u8]) -> (u: Vec<u16>)
    ensures
        u@ == be16_units(b@),
{
    let mut u: Vec<u16> = Vec::new();
    let mut i: usize = 0;
    assert(b@.subrange(0, b@.len() as int) =~= b@);
    assert(u@ + be16_units(b@) =~= be16_units(b@));
    while i < b.len() && b.len() - i >= 2
        invariant
            i <= b@.len(),
            u@ + be16_units(b@.subrange(i as int, b@.len() as int)) == be16_units(b@),
        decreases b@.len() - i,
    {
        let ghost tail = b@.subrange(i as int, b@.len() as int);
        proof { assert(tail.subrange(2, tail.len() as int) =~= b@.subrange(i + 2, b@.len() as int)); }
        let v = crate::bytes::get_be16(b, i);
        proof {
            assert(u@.push(v) + be16_units(b@.subrange(i + 2, b@.len() as int)) =~= u@ + be16_units(tail));
        }
        u.push(v);
        i = i + 2;
    }
    assert(be16_units(b@.subrange(i as int, b@.len() as int)) =~= seq![]);
    assert(u@ + seq![] =~= u@);
    u
}

/// Whether two strings hold the same characters.
pub fn str_eq(a: &str, b: &str) -> (r: bool)
    ensures
        r == (a@ == b@),
{
    let x = chars_of(a);
    let y = chars_of(b);
    chars_eq(x.as_slice(), y.as_slice())
}

/// `std::str::from_utf8`: the text of `b` when it is valid UTF-8.
#[verifier::external_body]
pub fn str_from_utf8(b: &[u8]) -> (r: Option<&str>)
    ensures
        r is Some <==> vstd::utf8::valid_utf8(b@),
        r matches Some(s) ==> s@ == vstd::utf8::decode_utf8(b@),
{
    std::str::from_utf8(b).ok()
}

/// `String::from_utf8`: the text of `b` when it is valid UTF-8.
#[verifier::external_body]
pub fn string_from_utf8(b: Vec<u8>) -> (r: Option<String>)
    ensures
        r is Some <==> vstd::utf8::valid_utf8(b@),
        r matches Some(s) ==> s@ == vstd::utf8::decode_utf8(b@),
{
    String::from_utf8(b).ok()
}

/// Unicode `White_Space`, the set `char::is_whitespace` tests.
pub open spec fn is_ws(c: char) -> bool {
    let v = c as u32;
    ||| 0x09 <= v <= 0x0D
    ||| v == 0x20 || v == 0x85 || v == 0xA0 || v == 0x1680
    ||| 0x2000 <= v <= 0x200A
    ||| v == 0x2028 || v == 0x2029 || v == 0x202F || v == 0x205F || v == 0x3000
}

/// `char::is_whitespace`.
pub fn is_whitespace(c: char) -> (r: bool)
    ensures
        r == is_ws(c),
{
    let v = c as u32;
    (0x09 <= v && v <= 0x0D) || v == 0x20 || v == 0x85 || v == 0xA0 || v == 0x1680
        || (0x2000 <= v && v <= 0x200A) || v == 0x2028 || v == 0x2029 || v == 0x202F
        || v == 0x205F || v == 0x3000
}

/// `s` without leading whitespace.
pub open spec fn trim_start(s: Seq<char>) -> Seq<char>
    decreases s.len(),
{
    if s.len() > 0 && is_ws(s[0]) { trim_start(s.drop_first()) } else { s }
}

/// `s` without trailing whitespace.
pub open spec fn trim_end(s: Seq<char>) -> Seq<char>
    decreases s.len(),
{
    if s.len() > 0 && is_ws(s.last()) { trim_end(s.drop_last()) } else { s }
}

/// `str::trim`: `s` without leading and trailing whitespace.
pub open spec fn trim(s: Seq<char>) -> Seq<char> {
    trim_end(trim_start(s))
}

/// The characters `s[from..to]` without leading and trailing whitespace.
pub fn trim_chars(s: &[char], from: usize, to: usize) -> (out: Vec<char>)
    requires
        from <= to <= s@.len(),
    ensures
        out@ == trim(s@.subrange(from as int, to as int)),
{
    let mut a = from;
    while a < to && is_whitespace(s[a])
        invariant
            from <= a <= to <= s@.len(),
            trim_start(s@.subrange(from as int, to as int)) == trim_start(s@.subrange(a as int, to as int)),
        decreases to - a,
    {
        assert(s@.subrange(a as int, to as int).drop_first() =~= s@.subrange(a + 1, to as int));
        a = a + 1;
    }
    let mut b = to;
    proof {
        if a < to {
            assert(s@.subrange(a as int, to as int)[0] == s@[a as int]);
        }
    }
    let ghost ts = s@.subrange(a as int, to as int);
    assert(trim_start(s@.subrange(from as int, to as int)) == ts);
    while b > a && is_whitespace(s[b - 1])
        invariant
            a <= b <= to <= s@.len(),
            ts == s@.subrange(a as int, to as int),
            trim_end(ts) == trim_end(s@.subrange(a as int, b as int)),
        decreases b - a,
    {
        assert(s@.subrange(a as int, b as int).drop_last() =~= s@.subrange(a as int, b - 1));
        b = b - 1;
    }
    proof {
        if b > a {
            assert(s@.subrange(a as int, b as int).last() == s@[b - 1]);
        }
    }
    let mut out: Vec<char> = Vec::new();
    let mut k = a;
    while k < b
        invariant
            a <= k <= b <= s@.len(),
            out@ == s@.subrange(a as int, k as int),
        decreases b - k,
    {
        out.push(s[k]);
        k = k + 1;
        assert(out@ =~= s@.subrange(a as int, k as int));
    }
    out
}


/// `a` then `b`.
pub fn concat_str(a: &str, b: &str) -> (s: String)
    ensures
        s@ == a@ + b@,
{
    let x = chars_of(a);
    let y = chars_of(b);
    let mut out: Vec<char> = Vec::new();
    let mut i: usize = 0;
    while i < x.len()
        invariant
            i <= x@.len(),
            out@ == x@.take(i as int),
        decreases x@.len() - i,
    {
        out.push(x[i]);
        i = i + 1;
        assert(out@ =~= x@.take(i as int));
    }
    let mut j: usize = 0;
    while j < y.len()
        invariant
            i == x@.len(),
            j <= y@.len(),
            out@ == x@.take(i as int) + y@.take(j as int),
        decreases y@.len() - j,
    {
        out.push(y[j]);
        j = j + 1;
        assert(out@ =~= x@.take(i as int) + y@.take(j as int));
    }
    assert(x@.take(i as int) =~= x@);
    assert(y@.take(j as int) =~= y@);
    string_from_chars(out.as_slice())
}


/// What `str::to_lowercase` makes of a string.
pub uninterp spec fn lowercase_of(s: Seq<char>) -> Seq<char>;

/// `str::to_lowercase`: the string in Unicode lower case; what that is, is
/// not stated here beyond being a function of the string.
#[verifier::external_body]
pub(crate) fn lowercase(s: &str) -> (r: String)
    ensures
        r@ == lowercase_of(s@),
{
    s.to_lowercase()
}


/// Whether one of `v` is `s`.
pub fn contains_str(v: &Vec<String>, s: &str) -> (r: bool)
    ensures
        r == v@.map_values(|x: String| x@).contains(s@),
{
    let ghost vv = v@.map_values(|x: String| x@);
    let mut i: usize = 0;
    while i < v.len()
        invariant
            i <= v@.len(),
            vv == v@.map_values(|x: String| x@),
            forall|j: int| 0 <= j < i ==> vv[j] != s@,
        decreases v@.len() - i,
    {
        assert(vv[i as int] == v@[i as int]@);
        if str_eq(v[i].as_str(), s) {
            assert(vv.contains(s@));
            return true;
        }
        i = i + 1;
    }
    false
}

}
