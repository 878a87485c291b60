//! The CDJ-safe profile, and what a probe says of a source.
use vstd::prelude::*;

verus! {

pub const SAFE_BITRATE_KBPS: u32 = 320;
pub const SAFE_SAMPLE_RATE: u32 = 44100;

/// What the probe reports of a source's first audio stream.
#[derive(Debug, Clone)]
pub struct SourceInfo {
    pub codec: String,
    pub sample_rate: u32,
    pub bitrate_kbps: Option<u32>,
}

impl SourceInfo {
    /// Lossy sources take a generation-loss hit when re-encoded.
    pub fn is_lossy(&self) -> (b: bool)
        ensures
            b == (self.codec@ == "mp3"@ || self.codec@ == "aac"@),
    {
        crate::text::str_eq(self.codec.as_str(), "mp3") || crate::text::str_eq(self.codec.as_str(), "aac")
    }

    /// Already exactly the safe profile: copied byte for byte instead of
    /// re-encoded.
    pub fn is_compatible_mp3(&self) -> (b: bool)
        ensures
            b == (self.codec@ == "mp3"@ && self.sample_rate == SAFE_SAMPLE_RATE
                && self.bitrate_kbps == Some(SAFE_BITRATE_KBPS)),
    {
        crate::text::str_eq(self.codec.as_str(), "mp3") && self.sample_rate == SAFE_SAMPLE_RATE
            && match self.bitrate_kbps {
                Some(b) => b == SAFE_BITRATE_KBPS,
                None => false,
            }
    }
}

/// The value of a run of decimal digits.
pub open spec fn digits_value(d: Seq<char>) -> int
    decreases d.len(),
{
    if d.len() == 0 { 0 } else { digits_value(d.drop_last()) * 10 + (d.last() as int - 48) }
}

/// Every character is a decimal digit.
pub open spec fn all_digits(d: Seq<char>) -> bool {
    forall|i: int| 0 <= i < d.len() ==> '0' <= #[trigger] d[i] <= '9'
}

/// `u32::from_str`: an optional `+`, then at least one digit, the value
/// fitting in 32 bits.
pub open spec fn spec_parse_u32(s: Seq<char>) -> Option<u32> {
    let d = if s.len() > 0 && s[0] == '+' { s.drop_first() } else { s };
    if d.len() > 0 && all_digits(d) && digits_value(d) <= u32::MAX {
        Some(digits_value(d) as u32)
    } else {
        None
    }
}

proof fn lemma_digits_value_nonneg(d: Seq<char>)
    requires
        all_digits(d),
    ensures
        digits_value(d) >= 0,
    decreases d.len(),
{
    if d.len() > 0 {
        lemma_digits_value_nonneg(d.drop_last());
    }
}

proof fn lemma_digits_value_prefix(d: Seq<char>, k: int)
    requires
        all_digits(d),
        0 <= k <= d.len(),
    ensures
        digits_value(d.take(k)) <= digits_value(d),
    decreases d.len() - k,
{
    if k < d.len() {
        assert(d.take(k + 1).drop_last() =~= d.take(k));
        assert(all_digits(d.take(k + 1)));
        lemma_digits_value_nonneg(d.take(k));
        lemma_digits_value_prefix(d, k + 1);
    } else {
        assert(d.take(k) =~= d);
    }
}

/// `str::parse::<u32>`.
pub fn parse_u32(s: &str) -> (r: Option<u32>)
    ensures
        r == spec_parse_u32(s@),
{
    let chars = crate::text::chars_of(s);
    let start: usize = if chars.len() > 0 && chars[0] == '+' { 1 } else { 0 };
    let ghost d = if s@.len() > 0 && s@[0] == '+' { s@.drop_first() } else { s@ };
    assert(chars@.skip(start as int) =~= d);
    if start == chars.len() {
        return None;
    }
    let mut v: u64 = 0;
    let mut i = start;
    while i < chars.len()
        invariant
            start <= i <= chars@.len(),
            chars@ == s@,
            d == chars@.skip(start as int),
            d == if s@.len() > 0 && s@[0] == '+' { s@.drop_first() } else { s@ },
            all_digits(d.take(i - start)),
            v as int == digits_value(d.take(i - start)),
            v <= u32::MAX,
        decreases chars@.len() - i,
    {
        let c = chars[i];
        if !('0' <= c && c <= '9') {
            proof {
                assert(d[i - start] == c);
                assert(!all_digits(d));
            }
            return None;
        }
        proof {
            assert(d.take(i - start + 1).drop_last() =~= d.take(i - start));
            assert(d.take(i - start + 1).last() == c);
        }
        let next = v * 10 + (c as u64 - 48);
        if next > 0xFFFF_FFFF {
            proof {
                assert(all_digits(d.take(i - start + 1)));
                if all_digits(d) {
                    lemma_digits_value_prefix(d, i - start + 1);
                }
            }
            return None;
        }
        v = next;
        i = i + 1;
    }
    assert(d.take(i - start) =~= d);
    Some(v as u32)
}

/// `str::parse` into an unsigned type whose largest value is `max`: an
/// optional `+`, then at least one digit, the value not above `max`.
pub open spec fn spec_parse_max(s: Seq<char>, max: int) -> Option<int> {
    let d = if s.len() > 0 && s[0] == '+' { s.drop_first() } else { s };
    if d.len() > 0 && all_digits(d) && digits_value(d) <= max {
        Some(digits_value(d))
    } else {
        None
    }
}

/// `str::parse::<u64>`.
pub fn parse_u64(s: &str) -> (r: Option<u64>)
    ensures
        match r {
            Some(v) => spec_parse_max(s@, u64::MAX as int) == Some(v as int),
            None => spec_parse_max(s@, u64::MAX as int) is None,
        },
{
    let chars = crate::text::chars_of(s);
    let start: usize = if chars.len() > 0 && chars[0] == '+' { 1 } else { 0 };
    let ghost d = if s@.len() > 0 && s@[0] == '+' { s@.drop_first() } else { s@ };
    assert(chars@.skip(start as int) =~= d);
    if start == chars.len() {
        return None;
    }
    let mut v: u128 = 0;
    let mut i = start;
    while i < chars.len()
        invariant
            start <= i <= chars@.len(),
            chars@ == s@,
            d == chars@.skip(start as int),
            d == if s@.len() > 0 && s@[0] == '+' { s@.drop_first() } else { s@ },
            all_digits(d.take(i - start)),
            v as int == digits_value(d.take(i - start)),
            v <= u64::MAX,
        decreases chars@.len() - i,
    {
        let c = chars[i];
        if !('0' <= c && c <= '9') {
            proof {
                assert(d[i - start] == c);
                assert(!all_digits(d));
            }
            return None;
        }
        proof {
            assert(d.take(i - start + 1).drop_last() =~= d.take(i - start));
            assert(d.take(i - start + 1).last() == c);
        }
        let next = v * 10 + (c as u128 - 48);
        if next > 0xFFFF_FFFF_FFFF_FFFF {
            proof {
                assert(all_digits(d.take(i - start + 1)));
                if all_digits(d) {
                    lemma_digits_value_prefix(d, i - start + 1);
                }
            }
            return None;
        }
        v = next;
        i = i + 1;
    }
    assert(d.take(i - start) =~= d);
    Some(v as u64)
}

/// `str::parse::<usize>`.
pub fn parse_usize(s: &str) -> (r: Option<usize>)
    ensures
        match r {
            Some(v) => spec_parse_max(s@, usize::MAX as int) == Some(v as int),
            None => spec_parse_max(s@, usize::MAX as int) is None,
        },
{
    match parse_u64(s) {
        Some(v) => if v <= usize::MAX as u64 { Some(v as usize) } else { None },
        None => None,
    }
}

/// The decimal digits of `n`, as ASCII bytes.
pub open spec fn decimal(n: nat) -> Seq<u8>
    decreases n,
{
    if n < 10 { seq![(48 + n) as u8] } else { decimal(n / 10) + seq![(48 + n % 10) as u8] }
}

/// Appends the decimal digits of `n`, as `to_string` writes them.
pub fn push_decimal(out: &mut Vec<u8>, n: u128)
    ensures
        final(out)@ == old(out)@ + decimal(n as nat),
    decreases n,
{
    if n >= 10 {
        push_decimal(out, n / 10);
    }
    out.push((48 + n % 10) as u8);
    assert(out@ =~= old(out)@ + decimal(n as nat));
}

/// A source's profile from the probe's fields: the codec (empty when
/// missing), the sample rate (0 when missing or unreadable), and the stream
/// bit rate, else the container's, in kbit/s rounded to the nearest.
pub fn source_info(
    codec: Option<String>,
    sample_rate: Option<&str>,
    stream_bit_rate: Option<&str>,
    format_bit_rate: Option<&str>,
) -> (info: SourceInfo)
    requires
        ({
            let bits = match stream_bit_rate { Some(s) => Some(s), None => format_bit_rate };
            match bits {
                Some(s) => match spec_parse_u32(s@) { Some(bps) => bps + 500 <= u32::MAX, None => true },
                None => true,
            }
        }),
    ensures
        info.codec@ == match codec { Some(c) => c@, None => Seq::<char>::empty() },
        info.sample_rate == match sample_rate {
            Some(s) => match spec_parse_u32(s@) { Some(v) => v, None => 0 },
            None => 0,
        },
        info.bitrate_kbps == match (match stream_bit_rate { Some(s) => Some(s), None => format_bit_rate }) {
            Some(s) => match spec_parse_u32(s@) { Some(bps) => Some(((bps + 500) / 1000) as u32), None => None },
            None => None,
        },
{
    let codec = match codec {
        Some(c) => c,
        None => String::new(),
    };
    let sample_rate = match sample_rate {
        Some(s) => match parse_u32(s) {
            Some(v) => v,
            None => 0,
        },
        None => 0,
    };
    let bits = match stream_bit_rate {
        Some(s) => Some(s),
        None => format_bit_rate,
    };
    let bitrate_kbps = match bits {
        Some(s) => match parse_u32(s) {
            Some(bps) => Some((bps + 500) / 1000),
            None => None,
        },
        None => None,
    };
    SourceInfo { codec, sample_rate, bitrate_kbps }
}

}
