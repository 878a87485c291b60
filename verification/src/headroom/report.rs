//! Per-method counts of an analysis run.
use vstd::prelude::*;

verus! {

/// How a file's gain is changed.
#[derive(Debug, Clone, Copy, PartialEq, Eq)]
pub enum GainMethod {
    /// WAV, AIFF, FLAC, ALAC rewritten by ffmpeg.
    FfmpegLossless,
    /// MP3 global gain in 1.5 dB steps.
    Mp3Lossless,
    /// AAC global gain in 1.5 dB steps.
    AacLossless,
    Mp3Reencode,
    AacReencode,
    /// Nothing to do.
    NoChange,
}

/// Per-method file counts.
#[derive(Debug, Default, Clone, Copy, PartialEq, Eq)]
pub struct AnalysisSummary {
    pub lossless_count: usize,
    pub mp3_lossless_count: usize,
    pub aac_lossless_count: usize,
    pub mp3_reencode_count: usize,
    pub aac_reencode_count: usize,
}

/// How many of `methods` are `m`.
pub open spec fn count_of(methods: Seq<GainMethod>, m: GainMethod) -> nat
    decreases methods.len(),
{
    if methods.len() == 0 {
        0
    } else {
        count_of(methods.drop_last(), m) + if methods.last() == m { 1nat } else { 0nat }
    }
}

proof fn lemma_count_of_le(methods: Seq<GainMethod>, m: GainMethod)
    ensures
        count_of(methods, m) <= methods.len(),
    decreases methods.len(),
{
    if methods.len() > 0 {
        lemma_count_of_le(methods.drop_last(), m);
    }
}

impl AnalysisSummary {
    /// Count the files per gain method.
    pub fn from_analyses(methods: &[GainMethod]) -> (s: Self)
        ensures
            s.lossless_count == count_of(methods@, GainMethod::FfmpegLossless),
            s.mp3_lossless_count == count_of(methods@, GainMethod::Mp3Lossless),
            s.aac_lossless_count == count_of(methods@, GainMethod::AacLossless),
            s.mp3_reencode_count == count_of(methods@, GainMethod::Mp3Reencode),
            s.aac_reencode_count == count_of(methods@, GainMethod::AacReencode),
    {
        let mut s = AnalysisSummary {
            lossless_count: 0,
            mp3_lossless_count: 0,
            aac_lossless_count: 0,
            mp3_reencode_count: 0,
            aac_reencode_count: 0,
        };
        let mut i: usize = 0;
        while i < methods.len()
            invariant
                i <= methods@.len(),
                s.lossless_count == count_of(methods@.take(i as int), GainMethod::FfmpegLossless),
                s.mp3_lossless_count == count_of(methods@.take(i as int), GainMethod::Mp3Lossless),
                s.aac_lossless_count == count_of(methods@.take(i as int), GainMethod::AacLossless),
                s.mp3_reencode_count == count_of(methods@.take(i as int), GainMethod::Mp3Reencode),
                s.aac_reencode_count == count_of(methods@.take(i as int), GainMethod::AacReencode),
            decreases methods@.len() - i,
        {
            proof {
                assert(methods@.take(i + 1).drop_last() =~= methods@.take(i as int));
                lemma_count_of_le(methods@.take(i as int), GainMethod::FfmpegLossless);
                lemma_count_of_le(methods@.take(i as int), GainMethod::Mp3Lossless);
                lemma_count_of_le(methods@.take(i as int), GainMethod::AacLossless);
                lemma_count_of_le(methods@.take(i as int), GainMethod::Mp3Reencode);
                lemma_count_of_le(methods@.take(i as int), GainMethod::AacReencode);
            }
            match methods[i] {
                GainMethod::FfmpegLossless => s.lossless_count = s.lossless_count + 1,
                GainMethod::Mp3Lossless => s.mp3_lossless_count = s.mp3_lossless_count + 1,
                GainMethod::AacLossless => s.aac_lossless_count = s.aac_lossless_count + 1,
                GainMethod::Mp3Reencode => s.mp3_reencode_count = s.mp3_reencode_count + 1,
                GainMethod::AacReencode => s.aac_reencode_count = s.aac_reencode_count + 1,
                GainMethod::NoChange => {},
            }
            i = i + 1;
        }
        assert(methods@.take(i as int) =~= methods@);
        s
    }

    /// Files changed without re-encoding.
    pub fn total_lossless(&self) -> (n: usize)
        requires
            self.lossless_count + self.mp3_lossless_count + self.aac_lossless_count <= usize::MAX,
        ensures
            n == self.lossless_count + self.mp3_lossless_count + self.aac_lossless_count,
    {
        self.lossless_count + self.mp3_lossless_count + self.aac_lossless_count
    }

    /// Files that have to be re-encoded.
    pub fn total_reencode(&self) -> (n: usize)
        requires
            self.mp3_reencode_count + self.aac_reencode_count <= usize::MAX,
        ensures
            n == self.mp3_reencode_count + self.aac_reencode_count,
    {
        self.mp3_reencode_count + self.aac_reencode_count
    }

    /// Some file can be processed one way or the other.
    pub fn has_processable(&self) -> (b: bool)
        requires
            self.lossless_count + self.mp3_lossless_count + self.aac_lossless_count
                + self.mp3_reencode_count + self.aac_reencode_count <= usize::MAX,
        ensures
            b == (self.lossless_count + self.mp3_lossless_count + self.aac_lossless_count
                + self.mp3_reencode_count + self.aac_reencode_count > 0),
    {
        self.total_lossless() + self.total_reencode() > 0
    }
}

}
