//! ffmpeg arguments for lossless gain, keeping the source's sample format.
use vstd::prelude::*;
use crate::text::str_eq;

verus! {

/// Source sample format, used to write a gain-adjusted lossless file back
/// at its original bit depth.
#[derive(Debug, Clone)]
pub struct SourceFormat {
    pub codec: String,
    /// Meaningful bit depth, or `None` when the probe reports it as 0 / N/A.
    pub bits: Option<u32>,
}

/// PCM codecs the AIFF muxer accepts.
pub open spec fn aiff_pcm() -> Seq<Seq<char>> {
    seq!["pcm_s8"@, "pcm_u8"@, "pcm_s16le"@, "pcm_s16be"@, "pcm_s24be"@, "pcm_s32be"@, "pcm_f32be"@, "pcm_f64be"@]
}

/// PCM codecs the WAV muxer accepts.
pub open spec fn wav_pcm() -> Seq<Seq<char>> {
    seq!["pcm_u8"@, "pcm_s16le"@, "pcm_s24le"@, "pcm_s32le"@, "pcm_f32le"@, "pcm_f64le"@]
}

/// The source's codec when the container accepts it, else `fallback`.
pub open spec fn pcm_codec(source: Option<SourceFormat>, allowed: Seq<Seq<char>>, fallback: Seq<char>) -> Seq<char> {
    match source {
        Some(s) => if allowed.contains(s.codec@) { s.codec@ } else { fallback },
        None => fallback,
    }
}

/// The source is at most 16 bits deep.
pub open spec fn at_most_16(source: Option<SourceFormat>) -> bool {
    match source {
        Some(s) => match s.bits {
            Some(b) => b <= 16,
            None => false,
        },
        None => false,
    }
}

/// ffmpeg output arguments for a lossless container with lower-case
/// extension `ext`.
pub open spec fn spec_output_args(ext: Seq<char>, source: Option<SourceFormat>) -> Seq<Seq<char>> {
    if ext == "flac"@ {
        seq!["-c:a"@, "flac"@, "-sample_fmt"@, if at_most_16(source) { "s16"@ } else { "s32"@ }]
    } else if ext == "aiff"@ || ext == "aif"@ {
        seq!["-c:a"@, pcm_codec(source, aiff_pcm(), "pcm_s24be"@), "-write_id3v2"@, "1"@]
    } else if ext == "m4a"@ || ext == "mp4"@ {
        seq!["-c:a"@, "alac"@, "-sample_fmt"@, if at_most_16(source) { "s16p"@ } else { "s32p"@ }]
    } else if ext == "wav"@ {
        seq!["-c:a"@, pcm_codec(source, wav_pcm(), "pcm_s24le"@), "-write_bext"@, "1"@]
    } else {
        seq![]
    }
}

/// Whether `name` is one of `list`.
fn listed(list: &[&str], name: &str) -> (r: bool)
    ensures
        r == list@.map_values(|s: &str| s@).contains(name@),
{
    let ghost names = list@.map_values(|s: &str| s@);
    let mut i: usize = 0;
    while i < list.len()
        invariant
            i <= list@.len(),
            names == list@.map_values(|s: &str| s@),
            forall|j: int| 0 <= j < i ==> names[j] != name@,
        decreases list@.len() - i,
    {
        if str_eq(list[i], name) {
            assert(names[i as int] == name@);
            return true;
        }
        i = i + 1;
    }
    false
}

fn pcm_codec_of(source: Option<&SourceFormat>, allowed: &[&str], fallback: &str) -> (r: String)
    ensures
        r@ == pcm_codec(
            match source { Some(s) => Some(*s), None => None },
            allowed@.map_values(|s: &str| s@),
            fallback@,
        ),
{
    match source {
        Some(s) => {
            if listed(allowed, s.codec.as_str()) {
                s.codec.clone()
            } else {
                fallback.to_owned()
            }
        },
        None => fallback.to_owned(),
    }
}

fn is_at_most_16(source: Option<&SourceFormat>) -> (r: bool)
    ensures
        r == at_most_16(match source { Some(s) => Some(*s), None => None }),
{
    match source {
        Some(s) => match s.bits {
            Some(b) => b <= 16,
            None => false,
        },
        None => false,
    }
}

/// ffmpeg output arguments for a lossless container, preserving the
/// source's bit depth where the muxer allows it. `extension` must already
/// be lower case; `source` is `None` when the probe could not be read.
pub fn output_args(extension: &str, source: Option<&SourceFormat>) -> (args: Vec<String>)
    ensures
        args@.map_values(|a: String| a@) == spec_output_args(
            extension@, match source { Some(s) => Some(*s), None => None }),
{
    let ghost src = match source { Some(s) => Some(*s), None => None };
    let mut v: Vec<String> = Vec::new();
    if str_eq(extension, "flac") {
        v.push("-c:a".to_owned());
        v.push("flac".to_owned());
        v.push("-sample_fmt".to_owned());
        v.push(if is_at_most_16(source) { "s16".to_owned() } else { "s32".to_owned() });
    } else if str_eq(extension, "aiff") || str_eq(extension, "aif") {
        let allowed: [&str; 8] = ["pcm_s8", "pcm_u8", "pcm_s16le", "pcm_s16be", "pcm_s24be", "pcm_s32be", "pcm_f32be", "pcm_f64be"];
        assert(allowed@.map_values(|s: &str| s@) =~= aiff_pcm());
        v.push("-c:a".to_owned());
        v.push(pcm_codec_of(source, &allowed, "pcm_s24be"));
        v.push("-write_id3v2".to_owned());
        v.push("1".to_owned());
    } else if str_eq(extension, "m4a") || str_eq(extension, "mp4") {
        v.push("-c:a".to_owned());
        v.push("alac".to_owned());
        v.push("-sample_fmt".to_owned());
        v.push(if is_at_most_16(source) { "s16p".to_owned() } else { "s32p".to_owned() });
    } else if str_eq(extension, "wav") {
        let allowed: [&str; 6] = ["pcm_u8", "pcm_s16le", "pcm_s24le", "pcm_s32le", "pcm_f32le", "pcm_f64le"];
        assert(allowed@.map_values(|s: &str| s@) =~= wav_pcm());
        v.push("-c:a".to_owned());
        v.push(pcm_codec_of(source, &allowed, "pcm_s24le"));
        v.push("-write_bext".to_owned());
        v.push("1".to_owned());
    }
    assert(v@.map_values(|a: String| a@) =~= spec_output_args(extension@, src));
    v
}

}
