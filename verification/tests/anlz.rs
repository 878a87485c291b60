use baken::export::anlz::cues::{pcob, pcob_empty, pco2, sections, splice, split, Cue, Kind, HOT, MEMORY};
use baken::export::anlz::generate::assemble::pvbr;
use baken::export::anlz::generate::grid::{pqt2_empty, pqtz, Beat};
use baken::export::anlz::generate::waveform::Waveforms;
use baken::export::anlz::hash::{anlz_dir, anlz_hash};
use baken::export::anlz::pssi::{is_plain, toggle_mask};
use baken::export::anlz::rewrite::{mp3_audio_frames, set_cbr_pvbr, strip_pvb2, FileKind};
use baken::export::anlz::section::{section, AnlzError, AnlzFile};

fn hex(s: &str) -> Vec<u8> {
    (0..s.len())
        .step_by(2)
        .map(|i| u8::from_str_radix(&s[i..i + 2], 16).unwrap())
        .collect()
}

#[test]
fn matches_rekordbox_export() {
    assert_eq!(anlz_dir("/Contents/XamarA/UnknownAlbum/Unreal.mp3"), "/PIONEER/USBANLZ/P060/00012938");
    assert_eq!(
        anlz_dir("/Contents/Szeir/Stolperfalle EP/Szeir - Stolperfalle EP - 01 Oort Cloud.flac"),
        "/PIONEER/USBANLZ/P074/0001B742"
    );
    assert_eq!(
        anlz_dir("/Contents/Lidvall/The Strange Guy EP/Lidvall - The Strange Guy EP - 05 Where hav.flac"),
        "/PIONEER/USBANLZ/P005/0000CD61"
    );
}

#[test]
fn hash_of_the_empty_path() {
    assert_eq!(anlz_hash(""), (0, 0));
    assert_eq!(anlz_dir(""), "/PIONEER/USBANLZ/P000/00000000");
}

#[test]
fn mask_is_involution_and_flips_plainness() {
    let mut s = vec![0u8; 0x40];
    s[..4].copy_from_slice(b"PSSI");
    s[0x10..0x12].copy_from_slice(&16u16.to_be_bytes());
    s[0x12..0x14].copy_from_slice(&2u16.to_be_bytes());
    let orig = s.clone();
    assert!(is_plain(&s));
    toggle_mask(&mut s);
    assert!(!is_plain(&s));
    assert_ne!(s, orig);
    toggle_mask(&mut s);
    assert_eq!(s, orig);
}

#[test]
fn short_sections_are_left_unmasked() {
    let mut s = vec![7u8; 0x13];
    toggle_mask(&mut s);
    assert_eq!(s, vec![7u8; 0x13]);
    assert!(!is_plain(&s));
}

#[test]
fn cbr_trailer() {
    let mut f = AnlzFile { header_tail: [0; 16], sections: vec![section(b"PVBR", 0x10, &[7u8; 1608])] };
    set_cbr_pvbr(&mut f, 19698);
    let s = f.find(b"PVBR").unwrap();
    assert!(s.bytes[16..1616].iter().all(|&b| b == 0));
    assert_eq!(&s.bytes[1616..], &22692096u32.to_be_bytes());
}

#[test]
fn a_pvbr_of_another_size_is_left_alone() {
    let mut f = AnlzFile { header_tail: [0; 16], sections: vec![section(b"PVBR", 0x10, &[7u8; 100])] };
    set_cbr_pvbr(&mut f, 19698);
    assert_eq!(f.sections[0].bytes, section(b"PVBR", 0x10, &[7u8; 100]).bytes);
}

#[test]
fn cdjsafe_pvbr_set_late_equals_pvbr_built_with_frames() {
    let mut late = AnlzFile { header_tail: [0; 16], sections: vec![pvbr(None)] };
    set_cbr_pvbr(&mut late, 19698);
    assert_eq!(late.sections[0].bytes, pvbr(Some(19698)).bytes);
}

#[test]
fn strip_pvb2_removes_every_copy() {
    let mut f = AnlzFile {
        header_tail: [0; 16],
        sections: vec![section(b"PVB2", 0x10, &[1]), section(b"PQTZ", 0x18, &[]), section(b"PVB2", 0x10, &[2])],
    };
    strip_pvb2(&mut f);
    assert_eq!(f.sections.len(), 1);
    assert_eq!(&f.sections[0].tag, b"PQTZ");
}

#[test]
fn extensions() {
    assert_eq!(FileKind::Dat.extension(), "DAT");
    assert_eq!(FileKind::Ext.extension(), "EXT");
    assert_eq!(FileKind::TwoEx.extension(), "2EX");
}

#[test]
fn path_round_trip_matches_stick_form() {
    let mut f = AnlzFile { header_tail: [0; 16], sections: vec![] };
    f.set_path("/Contents/XamarA/UnknownAlbum/Unreal.mp3");
    let s = f.find(b"PPTH").unwrap();
    assert_eq!(s.bytes.len(), 98);
    assert_eq!(f.path().unwrap(), "/Contents/XamarA/UnknownAlbum/Unreal.mp3");
    let bytes = f.to_bytes();
    assert_eq!(AnlzFile::parse(&bytes).unwrap(), f);
    assert_eq!(&bytes[8..12], &(bytes.len() as u32).to_be_bytes());
}

#[test]
fn set_path_replaces_the_first_ppth_in_place() {
    let mut f = AnlzFile {
        header_tail: [0; 16],
        sections: vec![section(b"PQTZ", 0x18, &[]), section(b"PPTH", 0x10, &[0, 0, 0, 2, 0, 0x41])],
    };
    assert_eq!(f.path().unwrap(), "A");
    f.set_path("/x");
    assert_eq!(f.sections.len(), 2);
    assert_eq!(&f.sections[1].tag, b"PPTH");
    assert_eq!(f.path().unwrap(), "/x");
}

#[test]
fn parse_refuses_what_is_not_an_analysis_file() {
    assert_eq!(AnlzFile::parse(b"PMAI"), Err(AnlzError::NotAnalysisFile));
    let mut bytes = vec![0u8; 0x1c];
    bytes[..4].copy_from_slice(b"RIFF");
    assert_eq!(AnlzFile::parse(&bytes), Err(AnlzError::NotAnalysisFile));
    let mut f = AnlzFile { header_tail: [1; 16], sections: vec![section(b"PQTZ", 0x18, &[1, 2, 3])] };
    let mut bytes = f.to_bytes();
    // the section claims more bytes than there are
    bytes[0x1c + 11] = 0xff;
    assert_eq!(
        AnlzFile::parse(&bytes),
        Err(AnlzError::CorruptSection { tag: *b"PQTZ", offset: 0x1c })
    );
    f.remove(b"PQTZ");
    assert!(f.sections.is_empty());
    assert_eq!(f.find(b"PQTZ"), None);
}

#[test]
fn tag_str_reads_the_tag() {
    let s = section(b"PWV3", 0x18, &[]);
    assert_eq!(s.tag_str(), "PWV3");
    let s = section(&[0xff, 0xfe, 0, 0], 0x18, &[]);
    assert_eq!(s.tag_str(), "????");
}

fn cue(start: f64, num: i32) -> Cue {
    Cue {
        start_ms: (start * 1000.0).round() as u32,
        num,
        rgb: if num >= 0 { Some((40, 226, 20)) } else { None },
        ..Default::default()
    }
}

#[test]
fn unreal_hot_cues_match_fixture_bytes() {
    let cues = [cue(15.280, 1), cue(30.280, 2)];
    let (hot, _) = split(&cues);
    let s = pcob(HOT, &hot);
    assert_eq!(&s.bytes[..24], &hex("50434f4200000018000000880000000100000002ffffffff")[..]);
    assert_eq!(&s.bytes[24..80], &hex("504350540000001c00000038000000030000000000010000ffffffff010003e800007648ffffffff00000000000000000000000000000000")[..]);
    let e = pco2(HOT, &hot);
    assert_eq!(&e.bytes[..20], &hex("50434f3200000014000000c40000000100020000")[..]);
    assert_eq!(&e.bytes[20..108], &hex("50435032000000100000005800000003010003e800007648ffffffff00010000000000000000000000000000001aff0000000000000000000000000000000000000000000000000000000000000000000000000000000000")[..]);
}

#[test]
fn memory_chain_and_counts() {
    let cues: Vec<Cue> = [0.281, 15.281, 150.281].iter().map(|s| cue(*s, -1)).collect();
    let (_, mem) = split(&cues);
    let s = pcob(MEMORY, &mem);
    assert_eq!(&s.bytes[12..24], &hex("000000000000000300000002")[..]);
    let entry = |i: usize| &s.bytes[24 + 56 * i..24 + 56 * (i + 1)];
    assert_eq!(&entry(0)[24..28], &hex("ffff0001")[..]);
    assert_eq!(&entry(1)[24..28], &hex("00000002")[..]);
    assert_eq!(&entry(2)[24..28], &hex("0001ffff")[..]);
    assert_eq!(u32::from_be_bytes(entry(0)[32..36].try_into().unwrap()), 150281);
    assert_eq!(pcob_empty(MEMORY).bytes, hex("50434f4200000018000000180000000000000000ffffffff"));
}

/// Quantised loop length in beats, as the app computes it from the XML's
/// seconds and the track's BPM.
fn loop_fraction(c_start: f64, c_end: Option<f64>, is_loop: bool, bpm: f64) -> (u16, u16) {
    match c_end {
        Some(end) if is_loop && bpm > 0.0 => {
            let beats = (end - c_start) * bpm / 60.0;
            let rounded = beats.round();
            if rounded >= 1.0 && (beats - rounded).abs() < 0.02 {
                (rounded as u16, 1)
            } else {
                (0, 0)
            }
        }
        _ => (0, 0),
    }
}

#[test]
fn comment_and_loop() {
    let c = Cue { name: "1.1Bars".into(), start_ms: 80, num: -1, ..Default::default() };
    let e = pco2(MEMORY, &[&c]);
    assert_eq!(e.bytes.len(), 20 + 104);
    assert_eq!(&e.bytes[20 + 40..20 + 64], &hex("000000100031002e00310042006100720073000000000000")[..]);
    assert_eq!(loop_fraction(121.155, Some(126.904), true, 83.5), (8, 1));
    let l = Cue { kind: 4, start_ms: 121155, end_ms: Some(126904), num: -1, loop_beats: 8, ..Default::default() };
    assert!(l.is_loop());
    assert_eq!(pcob(MEMORY, &[&l]).bytes[24 + 28], 2);
    let e = pco2(MEMORY, &[&l]);
    assert_eq!(&e.bytes[20 + 36..20 + 40], &[0, 8, 0, 1]);
}

#[test]
fn splice_replaces_cue_sections_in_order() {
    let cues = [cue(1.0, 0), cue(2.0, -1)];
    let mut f = AnlzFile {
        header_tail: [0; 16],
        sections: vec![
            section(b"PPTH", 0x10, &[0, 0, 0, 0]),
            pcob_empty(HOT),
            section(b"PWAV", 0x14, &[]),
            pcob_empty(MEMORY),
        ],
    };
    splice(&mut f, Kind::Dat, &cues);
    let fresh = sections(Kind::Dat, &cues);
    assert_eq!(f.sections.len(), 4);
    assert_eq!(f.sections[1].bytes, fresh[0].bytes);
    assert_eq!(&f.sections[2].tag, b"PWAV");
    assert_eq!(f.sections[3].bytes, fresh[1].bytes);
    let ext = sections(Kind::Ext, &cues);
    let tags: Vec<&str> = ext.iter().map(|s| s.tag_str()).collect();
    assert_eq!(tags, ["PCOB", "PCOB", "PCO2", "PCO2"]);
}

#[test]
fn pqt2_empty_matches_rekordbox() {
    let s = pqt2_empty();
    assert_eq!(s.bytes.len(), 56);
    assert_eq!(&s.bytes[..20], b"PQT2\0\0\0\x38\0\0\0\x38\0\0\0\0\x01\0\0\x02");
    assert!(s.bytes[20..].iter().all(|&b| b == 0));
}

#[test]
fn pqtz_lays_out_the_beats() {
    let beats = [
        Beat { number: 1, tempo: 12800, time_ms: 0 },
        Beat { number: 2, tempo: 12800, time_ms: 469 },
        Beat { number: 3, tempo: 12800, time_ms: 938 },
    ];
    let s = pqtz(&beats);
    assert_eq!(s.bytes.len(), 24 + 3 * 8);
    assert_eq!(&s.bytes[..12], b"PQTZ\0\0\0\x18\0\0\0\x30");
    assert_eq!(&s.bytes[12..24], &[0, 0, 0, 0, 0, 8, 0, 0, 0, 0, 0, 3]);
    assert_eq!(&s.bytes[24..32], &[0, 1, 0x32, 0, 0, 0, 0, 0]);
    assert_eq!(&s.bytes[32..40], &[0, 2, 0x32, 0, 0, 0, 0x01, 0xd5]);
    assert_eq!(pqtz(&[]).bytes.len(), 24);
}

#[test]
fn waveform_sections() {
    let w = Waveforms {
        pwv3: vec![1, 2, 3],
        pwv5: vec![0x0102, 0x0304],
        pwv7: vec![[1, 2, 3]],
        gains: [4, 5, 6],
        pwav: vec![9; 400],
        pwv2: vec![8; 100],
        pwv6: vec![[7, 8, 9], [1, 1, 1]],
        pwv4: vec![[1, 2, 3, 4, 5, 6]],
    };
    let dat = w.dat_sections();
    assert_eq!(dat[0].bytes.len(), 20 + 400);
    assert_eq!(&dat[0].bytes[12..20], &[0, 0, 1, 0x90, 0, 1, 0, 0]);
    assert_eq!(&dat[1].tag, b"PWV2");
    let p3 = w.pwv3_section();
    assert_eq!(&p3.bytes[12..24], &[0, 0, 0, 1, 0, 0, 0, 3, 0, 0x96, 0, 0]);
    let p5 = w.pwv5_section();
    assert_eq!(&p5.bytes[12..20], &[0, 0, 0, 2, 0, 0, 0, 2]);
    assert_eq!(&p5.bytes[24..], &[1, 2, 3, 4]);
    let p4 = w.pwv4_section();
    assert_eq!(&p4.bytes[24..], &[1, 2, 3, 4, 5, 6]);
    let two = w.two_ex_sections();
    assert_eq!(&two[1].bytes[12..20], &[0, 0, 0, 3, 0, 0, 0, 2]);
    assert_eq!(&two[2].bytes[12..], &[0, 0, 0, 4, 0, 5, 0, 6]);
}

#[test]
fn pvbr_for_other_formats_is_all_zero() {
    let p = pvbr(None);
    assert_eq!(p.bytes.len(), 1620);
    assert!(p.bytes[12..].iter().all(|&b| b == 0));
}

fn mp3_frame(padding: bool) -> Vec<u8> {
    // MPEG-1 layer III, 128 kbit/s, 44.1 kHz: 417 bytes, 418 with padding
    let mut f = vec![0xff, 0xfb, 0x90 | if padding { 2 } else { 0 }, 0x64];
    f.resize(if padding { 418 } else { 417 }, 0);
    f
}

#[test]
fn mp3_frames_are_counted_after_the_tag_and_xing_frame() {
    let mut data = b"ID3\x03\x00\x00\x00\x00\x00\x05".to_vec();
    data.extend([0u8; 5]);
    data.extend([1u8, 2, 3]); // junk before the first frame
    let mut xing = mp3_frame(false);
    xing[40..44].copy_from_slice(b"Xing");
    data.extend(xing);
    for _ in 0..5 {
        data.extend(mp3_frame(true));
    }
    data.extend(b"TAG");
    assert_eq!(mp3_audio_frames(&data), 5);
    assert_eq!(mp3_audio_frames(&[]), 0);
}

#[test]
fn the_grid_summary_reads_the_first_pqtz() {
    let beats = [
        Beat { number: 1, tempo: 12800, time_ms: 250 },
        Beat { number: 2, tempo: 12800, time_ms: 719 },
    ];
    let file = baken::export::anlz::section::AnlzFile { header_tail: [0; 16], sections: vec![pqt2_empty(), pqtz(&beats)] };
    assert_eq!(baken::export::anlz::locate::pqtz_summary(&file), (2, 250, 12800));
    let empty = baken::export::anlz::section::AnlzFile { header_tail: [0; 16], sections: vec![pqtz(&[])] };
    assert_eq!(baken::export::anlz::locate::pqtz_summary(&empty), (0, 0, 0));
    let none = baken::export::anlz::section::AnlzFile { header_tail: [0; 16], sections: vec![] };
    assert_eq!(baken::export::anlz::locate::pqtz_summary(&none), (0, 0, 0));
}

#[test]
fn analysis_files_are_indexed_by_the_stored_file_name() {
    assert_eq!(baken::export::anlz::locate::stored_file_name("?/Music/Unreal.mp3"), "Unreal.mp3");
    assert_eq!(baken::export::anlz::locate::stored_file_name("C:\\Music\\盾.flac"), "盾.flac");
    assert_eq!(baken::export::anlz::locate::stored_file_name("plain.wav"), "plain.wav");
}

#[test]
fn duplicates_are_told_apart_by_grid_then_length() {
    assert_eq!(baken::export::anlz::locate::pick_candidate(&[], &[]), None);
    assert_eq!(baken::export::anlz::locate::pick_candidate(&[true, true], &[false, true]), Some(1));
    assert_eq!(baken::export::anlz::locate::pick_candidate(&[false, true, true], &[true, false, false]), Some(1));
    assert_eq!(baken::export::anlz::locate::pick_candidate(&[false, false], &[false, true]), Some(1));
    assert_eq!(baken::export::anlz::locate::pick_candidate(&[false, false], &[false, false]), Some(0));
}
