use baken::headroom::id3;
use baken::headroom::processor::{output_args, SourceFormat};
use baken::headroom::report::{AnalysisSummary, GainMethod};
use baken::headroom::tags::{prefix_len, read, restore, Container, Tags, TagsError};

/// A 4 KB binary frame, the shape rekordbox and Serato write.
fn tag_with_geob() -> Vec<u8> {
    let mut body = b"TIT2\x00\x00\x00\x0b\x00\x00\x00Test Track".to_vec();
    body.extend_from_slice(b"GEOB\x00\x00\x10\x00\x00\x00");
    body.extend_from_slice(&[0u8; 4096]);
    let n = body.len();
    let mut tag = b"ID3\x03\x00\x00".to_vec();
    tag.extend_from_slice(&[
        (n >> 21) as u8 & 0x7f,
        (n >> 14) as u8 & 0x7f,
        (n >> 7) as u8 & 0x7f,
        n as u8 & 0x7f,
    ]);
    tag.extend_from_slice(&body);
    tag
}

fn chunk(id: &[u8; 4], payload: &[u8], big_endian: bool) -> Vec<u8> {
    let len = payload.len() as u32;
    let mut out = id.to_vec();
    out.extend_from_slice(&if big_endian {
        len.to_be_bytes()
    } else {
        len.to_le_bytes()
    });
    out.extend_from_slice(payload);
    if payload.len() % 2 == 1 {
        out.push(0);
    }
    out
}

fn container(big_endian: bool, chunks: &[Vec<u8>]) -> Vec<u8> {
    let body: Vec<u8> = chunks.concat();
    let mut out = if big_endian {
        b"FORM".to_vec()
    } else {
        b"RIFF".to_vec()
    };
    let size = (4 + body.len()) as u32;
    out.extend_from_slice(&if big_endian {
        size.to_be_bytes()
    } else {
        size.to_le_bytes()
    });
    out.extend_from_slice(if big_endian { b"AIFF" } else { b"WAVE" });
    out.extend_from_slice(&body);
    out
}

fn mp4_box(typ: &[u8; 4], body: &[u8]) -> Vec<u8> {
    let mut out = ((8 + body.len()) as u32).to_be_bytes().to_vec();
    out.extend_from_slice(typ);
    out.extend_from_slice(body);
    out
}

/// The `----` shape Serato writes: mean, name, then an opaque data box.
fn free_form(payload: &[u8]) -> Vec<u8> {
    let inner = [
        mp4_box(
            b"mean",
            &[b"\x00\x00\x00\x00", b"com.serato.dj".as_slice()].concat(),
        ),
        mp4_box(
            b"name",
            &[b"\x00\x00\x00\x00", b"markersv2".as_slice()].concat(),
        ),
        mp4_box(
            b"data",
            &[b"\x00\x00\x00\x01\x00\x00\x00\x00", payload].concat(),
        ),
    ]
    .concat();
    mp4_box(b"----", &inner)
}

/// ftyp, mdat, then moov last, the layout ffmpeg writes.
fn mp4_file(items: &[Vec<u8>]) -> Vec<u8> {
    let encoder = mp4_box(b"\xa9too", b"\x00\x00\x00\x01\x00\x00\x00\x00Lavf");
    let ilst = mp4_box(b"ilst", &[vec![encoder], items.to_vec()].concat().concat());
    let meta = mp4_box(b"meta", &[b"\x00\x00\x00\x00".as_slice(), &ilst].concat());
    let moov = mp4_box(b"moov", &mp4_box(b"udta", &meta));
    [
        mp4_box(b"ftyp", b"M4A \x00\x00\x00\x00"),
        mp4_box(b"mdat", &[9u8; 64]),
        moov,
    ]
    .concat()
}

fn id3_of(tags: &Tags) -> &[u8] {
    match tags {
        Tags::Id3(tag) => tag,
        Tags::Mp4(_) => panic!("expected an ID3 tag"),
    }
}

fn mp4_of(tags: &Tags) -> &[Vec<u8>] {
    match tags {
        Tags::Mp4(items) => items,
        Tags::Id3(_) => panic!("expected MP4 free-form items"),
    }
}

#[test]
fn id3_counts_the_v24_footer() {
    let mut header = *b"ID3\x04\x00\x10\x00\x00\x00\x0a";
    assert_eq!(prefix_len(&header), Some(30));
    header[5] = 0x00;
    assert_eq!(prefix_len(&header), Some(20));
}

#[test]
fn tags_counts_the_v24_footer() {
    let mut header = *b"ID3\x04\x00\x10\x00\x00\x00\x0a";
    assert_eq!(prefix_len(&header), Some(30));
    header[5] = 0x00;
    assert_eq!(prefix_len(&header), Some(20));
}

#[test]
fn tags_reads_a_v23_tag_length() {
    let tag = tag_with_geob();
    let mut header = [0u8; 10];
    header.copy_from_slice(&tag[..10]);
    assert_eq!(prefix_len(&header), Some(tag.len() as u64));
    assert_eq!(prefix_len(&[0u8; 10]), None);
}

#[test]
fn id3_reads_a_v23_tag_length() {
    let tag = tag_with_geob();
    let mut header = [0u8; 10];
    header.copy_from_slice(&tag[..10]);
    assert_eq!(prefix_len(&header), Some(tag.len() as u64));
    assert_eq!(prefix_len(&[0u8; 10]), None);
}

#[test]
fn id3_reads_the_mp3_prefix() {
    let tag = tag_with_geob();
    let mut file = tag.clone();
    file.extend_from_slice(b"\xff\xfbaudio");
    assert_eq!(id3::read("mp3", &file), Some(tag));
    assert_eq!(id3::read("mp3", &[0u8; 10]), None);
}

#[test]
fn tags_round_trips_an_mp3_prefix() {
    let tag = tag_with_geob();
    // ffmpeg's output: a smaller tag with only the text frame, plus audio.
    let converted = [
        b"ID3\x03\x00\x00\x00\x00\x00\x00".as_slice(),
        b"\xff\xfbaudio",
    ]
    .concat();
    let written = restore("mp3", &converted, &Tags::Id3(tag.clone())).unwrap();
    assert_eq!(id3_of(&read("mp3", &written).unwrap()), tag.as_slice());
    assert_eq!(&written[tag.len()..], b"\xff\xfbaudio");
}

#[test]
fn id3_round_trips_an_mp3_prefix() {
    let tag = tag_with_geob();
    let converted = [
        b"ID3\x03\x00\x00\x00\x00\x00\x00".as_slice(),
        b"\xff\xfbaudio",
    ]
    .concat();
    let written = id3::restore("MP3", &converted, &tag).unwrap();
    assert_eq!(id3::read("mp3", &written), Some(tag.clone()));
    assert_eq!(&written[tag.len()..], b"\xff\xfbaudio");
}

#[test]
fn tags_replaces_an_aiff_id3_chunk_and_keeps_the_others() {
    let tag = tag_with_geob();
    let ssnd = chunk(b"SSND", &[7u8; 101], true);
    let converted = container(
        true,
        &[
            chunk(b"COMM", &[1u8; 18], true),
            ssnd.clone(),
            chunk(b"ID3 ", b"ID3\x03\x00\x00\x00\x00\x00\x00", true),
        ],
    );
    let written = restore("aiff", &converted, &Tags::Id3(tag.clone())).unwrap();
    assert_eq!(id3_of(&read("aiff", &written).unwrap()), tag.as_slice());
    // An odd-length payload keeps its pad byte, and the FORM size agrees.
    assert!(written.windows(ssnd.len()).any(|w| w == ssnd));
    assert_eq!(
        u32::from_be_bytes(written[4..8].try_into().unwrap()) as usize,
        written.len() - 8
    );
}

#[test]
fn id3_replaces_an_aiff_id3_chunk_and_keeps_the_others() {
    let tag = tag_with_geob();
    let ssnd = chunk(b"SSND", &[7u8; 101], true);
    let converted = container(
        true,
        &[
            chunk(b"COMM", &[1u8; 18], true),
            ssnd.clone(),
            chunk(b"ID3 ", b"ID3\x03\x00\x00\x00\x00\x00\x00", true),
        ],
    );
    let written = id3::restore("aif", &converted, &tag).unwrap();
    assert_eq!(id3::read("aif", &written), Some(tag));
    assert!(written.windows(ssnd.len()).any(|w| w == ssnd));
    assert_eq!(
        u32::from_be_bytes(written[4..8].try_into().unwrap()) as usize,
        written.len() - 8
    );
}

/// ffmpeg writes no `id3 ` chunk at all for WAV, so there is nothing to
/// replace and the tag is appended.
#[test]
fn tags_appends_to_a_wav_without_a_tag() {
    let tag = tag_with_geob();
    let converted = container(
        false,
        &[
            chunk(b"fmt ", &[2u8; 16], false),
            chunk(b"data", &[3u8; 64], false),
        ],
    );
    assert!(read("wav", &converted).is_none());
    let written = restore("wav", &converted, &Tags::Id3(tag.clone())).unwrap();
    assert_eq!(id3_of(&read("wav", &written).unwrap()), tag.as_slice());
    assert_eq!(
        u32::from_le_bytes(written[4..8].try_into().unwrap()) as usize,
        written.len() - 8
    );
}

#[test]
fn id3_appends_to_a_wav_without_a_tag() {
    let tag = tag_with_geob();
    let converted = container(
        false,
        &[
            chunk(b"fmt ", &[2u8; 16], false),
            chunk(b"data", &[3u8; 64], false),
        ],
    );
    assert!(id3::read("wav", &converted).is_none());
    let written = id3::restore("wav", &converted, &tag).unwrap();
    assert_eq!(id3::read("wav", &written), Some(tag));
    assert_eq!(
        u32::from_le_bytes(written[4..8].try_into().unwrap()) as usize,
        written.len() - 8
    );
}

/// FLAC keeps Vorbis comments ffmpeg already carries; both calls no-op.
#[test]
fn tags_leaves_other_containers_alone() {
    let file = b"fLaC-untouched".to_vec();
    assert!(read("flac", &file).is_none());
    let written = restore("flac", &file, &Tags::Id3(tag_with_geob())).unwrap();
    assert_eq!(written, file);
}

#[test]
fn id3_leaves_other_containers_alone() {
    let file = b"fLaC-untouched".to_vec();
    assert!(id3::read("flac", &file).is_none());
    assert_eq!(id3::restore("flac", &file, &tag_with_geob()).unwrap(), file);
    // MP4 keeps its tags elsewhere.
    assert!(id3::read("m4a", &mp4_file(&[])).is_none());
}

#[test]
fn round_trips_mp4_free_form_items() {
    let item = free_form(&[b'A'; 2000]);
    let source = mp4_file(std::slice::from_ref(&item));
    // ffmpeg's output keeps the encoder atom and drops the free-form one.
    let converted = mp4_file(&[]);

    let tags = read("m4a", &source).unwrap();
    assert_eq!(mp4_of(&tags), std::slice::from_ref(&item));
    assert!(read("m4a", &converted).is_none());
    let written = restore("m4a", &converted, &tags).unwrap();

    assert_eq!(
        mp4_of(&read("m4a", &written).unwrap()),
        std::slice::from_ref(&item)
    );
    // Every enclosing box grew by exactly the item, and moov still ends
    // the file, so the mdat before it never moved.
    assert_eq!(written.len(), source.len());
    assert_eq!(written, source);
    assert_eq!(&written[36..44], &source[36..44]);
}

/// Splicing into a faststart layout would invalidate the sample tables, so
/// it fails loudly instead of quietly dropping the tags.
#[test]
fn refuses_to_splice_when_moov_is_not_last() {
    let file = mp4_file(&[]);
    // Move moov ahead of mdat, the faststart layout.
    let moov = file.windows(4).position(|w| w == b"moov").unwrap() - 4;
    let faststart = [&file[moov..], &file[..moov]].concat();
    let err = restore("m4a", &faststart, &Tags::Mp4(vec![free_form(b"x")])).unwrap_err();
    assert_eq!(err, TagsError::MoovNotLast);
}

#[test]
fn a_short_riff_cannot_take_a_tag() {
    assert_eq!(
        restore("wav", b"RIFF", &Tags::Id3(tag_with_geob())).unwrap_err(),
        TagsError::TruncatedHeader
    );
}

#[test]
fn an_mp4_without_moov_or_ilst_is_refused() {
    let no_moov = mp4_box(b"ftyp", b"M4A \x00\x00\x00\x00");
    assert_eq!(
        restore("m4a", &no_moov, &Tags::Mp4(vec![free_form(b"x")])).unwrap_err(),
        TagsError::NoMoov
    );
    let bare_moov = [no_moov.clone(), mp4_box(b"moov", &[])].concat();
    assert_eq!(
        restore("m4a", &bare_moov, &Tags::Mp4(vec![free_form(b"x")])).unwrap_err(),
        TagsError::NoIlst
    );
}

#[test]
fn containers_by_extension() {
    assert_eq!(Container::of("MP3"), Some(Container::Mp3));
    assert_eq!(Container::of("aif"), Some(Container::Aiff));
    assert_eq!(Container::of("WAV"), Some(Container::Wav));
    assert_eq!(Container::of("m4a"), Some(Container::Mp4));
    assert_eq!(Container::of("flac"), None);
    assert!(Container::Aiff.big_endian());
    assert!(!Container::Wav.big_endian());
}

fn source(codec: &str, bits: Option<u32>) -> SourceFormat {
    SourceFormat {
        codec: codec.to_string(),
        bits,
    }
}

fn codec_of(args: &[String]) -> &str {
    &args[args.iter().position(|a| a == "-c:a").unwrap() + 1]
}

fn value_of(args: &[String], flag: &str) -> Option<String> {
    args.iter()
        .position(|a| a == flag)
        .map(|i| args[i + 1].clone())
}

/// A 16-bit source must not come back as 24-bit.
#[test]
fn preserves_source_bit_depth() {
    let aiff = output_args("aiff", Some(&source("pcm_s16be", Some(16))));
    assert_eq!(codec_of(&aiff), "pcm_s16be");

    let wav = output_args("wav", Some(&source("pcm_s16le", Some(16))));
    assert_eq!(codec_of(&wav), "pcm_s16le");

    let flac = output_args("flac", Some(&source("flac", Some(16))));
    assert_eq!(value_of(&flac, "-sample_fmt").as_deref(), Some("s16"));
}

/// 32-bit float masters must not be truncated to 24-bit integer.
#[test]
fn preserves_float_sources() {
    let aiff = output_args("aiff", Some(&source("pcm_f32be", Some(32))));
    assert_eq!(codec_of(&aiff), "pcm_f32be");

    let wav = output_args("wav", Some(&source("pcm_f32le", Some(32))));
    assert_eq!(codec_of(&wav), "pcm_f32le");
}

#[test]
fn keeps_24_bit_sources_at_24_bit() {
    assert_eq!(
        codec_of(&output_args("aiff", Some(&source("pcm_s24be", Some(24))))),
        "pcm_s24be"
    );
    let flac = output_args("flac", Some(&source("flac", Some(24))));
    assert_eq!(value_of(&flac, "-sample_fmt").as_deref(), Some("s32"));
}

#[test]
fn alac_keeps_its_container_and_bit_depth() {
    let m4a16 = output_args("m4a", Some(&source("alac", Some(16))));
    assert_eq!(codec_of(&m4a16), "alac");
    assert!(m4a16.contains(&"s16p".to_string()));
    let m4a24 = output_args("m4a", Some(&source("alac", Some(24))));
    assert!(m4a24.contains(&"s32p".to_string()));
    assert_eq!(codec_of(&output_args("mp4", None)), "alac");
}

#[test]
fn falls_back_when_codec_not_writable() {
    // Byte order is container-specific: LE flavours can't go into AIFF.
    assert_eq!(
        codec_of(&output_args("aiff", Some(&source("pcm_s24le", Some(24))))),
        "pcm_s24be"
    );
    assert_eq!(
        codec_of(&output_args("wav", Some(&source("pcm_s16be", Some(16))))),
        "pcm_s24le"
    );
    assert_eq!(codec_of(&output_args("aiff", None)), "pcm_s24be");
    assert_eq!(codec_of(&output_args("wav", None)), "pcm_s24le");
    let flac = output_args("flac", None);
    assert_eq!(value_of(&flac, "-sample_fmt").as_deref(), Some("s32"));
}

#[test]
fn metadata_flags_are_kept() {
    let aiff = output_args("aif", Some(&source("pcm_s16be", Some(16))));
    assert_eq!(value_of(&aiff, "-write_id3v2").as_deref(), Some("1"));
    let wav = output_args("wav", Some(&source("pcm_s16le", Some(16))));
    assert_eq!(value_of(&wav, "-write_bext").as_deref(), Some("1"));
    assert!(output_args("ogg", None).is_empty());
}

#[test]
fn summary_counts_each_method() {
    let methods = [
        GainMethod::FfmpegLossless,
        GainMethod::Mp3Lossless,
        GainMethod::Mp3Lossless,
        GainMethod::AacReencode,
        GainMethod::NoChange,
    ];
    let s = AnalysisSummary::from_analyses(&methods);
    assert_eq!(s.lossless_count, 1);
    assert_eq!(s.mp3_lossless_count, 2);
    assert_eq!(s.aac_lossless_count, 0);
    assert_eq!(s.mp3_reencode_count, 0);
    assert_eq!(s.aac_reencode_count, 1);
    assert_eq!(s.total_lossless(), 3);
    assert_eq!(s.total_reencode(), 1);
    assert!(s.has_processable());
    let none = AnalysisSummary::from_analyses(&[GainMethod::NoChange]);
    assert!(!none.has_processable());
}

/// A path's components as the library takes them, the root as `/`.
fn components(p: &str) -> Vec<String> {
    std::path::Path::new(p)
        .components()
        .map(|c| match c {
            std::path::Component::RootDir => "/".to_string(),
            other => other.as_os_str().to_string_lossy().into_owned(),
        })
        .collect()
}

fn strings(v: &[&str]) -> Vec<String> {
    v.iter().map(|s| s.to_string()).collect()
}

#[test]
fn common_base_dir_of_files_is_their_shared_directory() {
    let common_base_dir = baken::headroom::common_base_dir;
    let files = vec![components("/music/set/a.wav"), components("/music/set/b/c.flac"), components("/music/set/d.mp3")];
    assert_eq!(common_base_dir(&files), Some(strings(&["/", "music", "set"])));
    let apart = vec![components("/music/a.wav"), components("/tmp/b.wav")];
    assert_eq!(common_base_dir(&apart), Some(strings(&["/"])));
    assert_eq!(common_base_dir(&[components("x.wav")]), Some(Vec::new()));
    assert_eq!(common_base_dir(&[]), None);
    assert_eq!(common_base_dir(&[components("/")]), None);
    assert_eq!(common_base_dir(&[components("/"), components("/a/b.wav")]), Some(strings(&["/", "a"])));
}
