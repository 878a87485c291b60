use baken::cancel::CancelToken;
use baken::cdjsafe::location::{decode_location, encode_location, sanitize_filename, LocationError};
use baken::cdjsafe::transcode::{parse_u32, source_info, SourceInfo};
use baken::export::build::file_type_for;
use baken::export::pdb::rows;
use baken::export::settings::{
    candidates, crc16_xmodem, expected_payload, files, locate, validate, SettingsError, OPTIONAL,
    REQUIRED,
};
use baken::fsname::{native, nfc, nfc_retry};
use baken::rbsort::camelot::parse_camelot;
use baken::rbsort::order::{sort_order, sort_tracks, TrackMeta};
use baken::rbsort::split_playlist_path;

const NFC: &str = "R\u{f8}dh\u{e5}d \u{e4}.flac";
const NFD: &str = "R\u{f8}dha\u{30a}d a\u{308}.flac";

#[test]
fn forms() {
    assert_eq!(nfc(NFD), NFC);
    assert_eq!(nfc("plain.mp3"), "plain.mp3");
    // Off macOS the native form is the stored one.
    assert_eq!(native(NFC, false), NFC);
}

#[test]
fn native_form_on_each_os() {
    assert_eq!(native(NFC, true), NFD);
    assert_eq!(native(NFC, false), NFC);
    assert_eq!(native("plain.mp3", true), "plain.mp3");
}

#[test]
fn nfc_retry_only_after_not_found_on_macos() {
    assert_eq!(nfc_retry(NFD, true, true), Some(NFC.to_string()));
    assert_eq!(nfc_retry(NFD, false, true), None);
    assert_eq!(nfc_retry(NFD, true, false), None);
    assert_eq!(nfc_retry(NFC, true, true), None);
}

#[test]
fn decode_rekordbox_location() {
    let loc = "file://localhost/Users/dj/M%C3%BCsic/track%20one.flac";
    assert_eq!(decode_location(loc).unwrap(), "/Users/dj/Müsic/track one.flac");
}

#[test]
fn decode_three_slash_form() {
    let loc = "file:///Users/dj/track.flac";
    assert_eq!(decode_location(loc).unwrap(), "/Users/dj/track.flac");
}

#[test]
fn decode_windows_location() {
    let loc = "file://localhost/C:/Music/track.flac";
    assert_eq!(decode_location(loc).unwrap(), "C:/Music/track.flac");
}

#[test]
fn encode_roundtrip() {
    let p = "/Users/dj/Müsic/track one.mp3";
    let loc = encode_location(p);
    assert_eq!(loc, "file://localhost/Users/dj/M%C3%BCsic/track%20one.mp3");
    assert_eq!(decode_location(&loc).unwrap(), "/Users/dj/Müsic/track one.mp3");
}

#[test]
fn encode_escapes_xml_unsafe_chars() {
    let p = "/m/a&b's.mp3";
    assert_eq!(encode_location(p), "file://localhost/m/a%26b%27s.mp3");
}

#[test]
fn sanitize_replaces_forbidden() {
    assert_eq!(sanitize_filename("a/b:c*d?.mp3"), "a_b_c_d_.mp3");
    assert_eq!(sanitize_filename("name."), "name");
    assert_eq!(sanitize_filename(""), "track");
}

#[test]
fn sanitize_strips_control_characters() {
    assert_eq!(sanitize_filename("a\u{1}b\tc\n.mp3"), "abc.mp3");
    assert_eq!(sanitize_filename("\u{1}"), "track");
    assert_eq!(sanitize_filename("x.\u{1f} "), "x");
}

#[test]
fn decode_refuses_what_is_not_a_file_url() {
    assert_eq!(decode_location("http://x/y"), Err(LocationError::Unsupported));
    assert_eq!(decode_location("file:///a%zz"), Err(LocationError::InvalidEscape));
    assert_eq!(decode_location("file:///a%ff"), Err(LocationError::NotUtf8));
}

#[test]
fn parses_valid_camelot() {
    assert_eq!(parse_camelot("1A"), Some(0));
    assert_eq!(parse_camelot("1B"), Some(1));
    assert_eq!(parse_camelot("2A"), Some(2));
    assert_eq!(parse_camelot("12A"), Some(22));
    assert_eq!(parse_camelot("12B"), Some(23));
    assert_eq!(parse_camelot(" 1a "), Some(0));
}

#[test]
fn rejects_invalid() {
    assert_eq!(parse_camelot(""), None);
    assert_eq!(parse_camelot("0A"), None);
    assert_eq!(parse_camelot("13A"), None);
    assert_eq!(parse_camelot("1C"), None);
    assert_eq!(parse_camelot("Am"), None);
    assert_eq!(parse_camelot("C#"), None);
    assert_eq!(parse_camelot("100A"), None);
}

#[test]
fn ordering_is_monotonic() {
    let order = [
        "1A", "1B", "2A", "2B", "3A", "3B", "4A", "4B", "5A", "5B", "6A", "6B", "7A", "7B", "8A",
        "8B", "9A", "9B", "10A", "10B", "11A", "11B", "12A", "12B",
    ];
    let mut prev = -1i16;
    for k in order {
        let idx = parse_camelot(k).unwrap() as i16;
        assert!(idx > prev, "{k} should come after previous");
        prev = idx;
    }
    assert_eq!(prev, 23);
}

fn meta(camelot: &str, bpm: f64) -> TrackMeta {
    TrackMeta {
        camelot: parse_camelot(camelot),
        bpm: Some(bpm.to_bits()),
    }
}

#[test]
fn sorts_by_camelot_then_bpm() {
    let col = vec![
        ("a".to_string(), meta("8A", 126.0)),
        ("b".to_string(), meta("8A", 124.0)),
        ("c".to_string(), meta("1A", 130.0)),
        ("d".to_string(), meta("12B", 120.0)),
    ];
    let input: Vec<String> = vec!["a".into(), "b".into(), "c".into(), "d".into()];
    let sorted = sort_tracks(&input, &col);
    assert_eq!(sorted, vec!["c", "b", "a", "d"]);
}

#[test]
fn unknown_keys_go_last_within_known() {
    let col = vec![
        ("a".to_string(), meta("1A", 120.0)),
        (
            "b".to_string(),
            TrackMeta {
                camelot: None,
                bpm: Some(120.0f64.to_bits()),
            },
        ),
    ];
    let input: Vec<String> = vec!["b".into(), "a".into()];
    let sorted = sort_tracks(&input, &col);
    assert_eq!(sorted, vec!["a", "b"]);
}

#[test]
fn ties_keep_playlist_order_and_unknown_ids_go_last() {
    let col = vec![
        ("x".to_string(), meta("5A", 120.0)),
        ("y".to_string(), meta("5A", 120.0)),
    ];
    let input: Vec<String> = vec!["ghost".into(), "y".into(), "x".into()];
    assert_eq!(sort_tracks(&input, &col), vec!["y", "x", "ghost"]);
    let metas = [
        TrackMeta { camelot: Some(3), bpm: None },
        TrackMeta { camelot: Some(3), bpm: Some(1) },
        TrackMeta { camelot: None, bpm: Some(0) },
    ];
    assert_eq!(sort_order(&metas), vec![1, 0, 2]);
}

#[test]
fn playlist_paths_are_split_and_trimmed() {
    assert_eq!(
        split_playlist_path(" Folder / Sub//Playlist "),
        vec!["Folder", "Sub", "Playlist"]
    );
    assert!(split_playlist_path(" / ").is_empty());
}

#[test]
fn extension_wins_over_a_wrong_kind() {
    assert_eq!(
        file_type_for("MP3 File", "Transfer.flac"),
        rows::FILE_TYPE_FLAC
    );
    assert_eq!(file_type_for("ALAC File", "a.m4a"), rows::FILE_TYPE_ALAC);
    assert_eq!(file_type_for("M4A File", "a.m4a"), rows::FILE_TYPE_M4A);
    assert_eq!(
        file_type_for("WAV File", "no-extension"),
        rows::FILE_TYPE_WAV
    );
}

#[test]
fn crc_reference() {
    // CRC-16/XMODEM check value
    assert_eq!(crc16_xmodem(b"123456789"), 0x31C3);
}

#[test]
fn local_files_validate_when_present() {
    // No default settings directory where rekordbox does not run.
    let Ok(_dir) = locate(Vec::new(), &[]) else {
        return;
    };
    panic!("no candidate was given");
}

fn valid(name: &str) -> Vec<u8> {
    let payload = match name {
        "DJMMYSETTING.DAT" => 52,
        "DEVSETTING.DAT" => 32,
        _ => 40,
    };
    let mut b = vec![0u8; 104];
    b[0] = 0x60;
    b[4..11].copy_from_slice(b"PIONEER");
    b[36..46].copy_from_slice(b"rekordbox\0");
    b[100..104].copy_from_slice(&(payload as u32).to_le_bytes());
    b.resize(104 + payload, 1);
    let crc = if name == "DJMMYSETTING.DAT" {
        crc16_xmodem(&b)
    } else {
        crc16_xmodem(&b[104..])
    };
    b.extend(crc.to_le_bytes());
    b.extend([0, 0]);
    b
}

#[test]
fn a_stray_file_is_named_with_the_expected_size() {
    assert_eq!(
        validate("DEVSETTING.DAT", &[0u8; 39]),
        Err(SettingsError::TooShort {
            len: 39,
            expected_file: Some(140)
        })
    );
}

#[test]
fn devsetting_is_optional_but_checked_when_present() {
    let dir = "/settings".to_string();
    assert_eq!(locate(vec![dir.clone()], &[true]), Ok(dir.clone()));
    assert_eq!(
        locate(vec!["/a".to_string(), "/b".to_string()], &[false, false]),
        Err(vec!["/a".to_string(), "/b".to_string()])
    );
    let required: Vec<Vec<u8>> = REQUIRED.iter().map(|f| valid(f)).collect();
    assert_eq!(files(false, &required).unwrap(), REQUIRED);
    assert_eq!(candidates(false), REQUIRED);

    let mut all = required.clone();
    all.push(valid(OPTIONAL));
    assert_eq!(files(true, &all).unwrap().last(), Some(&OPTIONAL));

    all[3] = vec![0u8; 39];
    let err = files(true, &all).unwrap_err();
    assert_eq!(err.name, OPTIONAL);
    assert!(err.optional);
}

#[test]
fn each_settings_check_has_its_error() {
    for name in REQUIRED {
        assert_eq!(validate(name, &valid(name)), Ok(()));
    }
    assert_eq!(expected_payload("DJMMYSETTING.DAT"), Some(52));
    assert_eq!(expected_payload("OTHER.DAT"), None);

    let mut wrong_len = valid("MYSETTING.DAT");
    wrong_len.push(0);
    assert_eq!(
        validate("MYSETTING.DAT", &wrong_len),
        Err(SettingsError::UnexpectedLayout {
            len_data: 40,
            file_len: 149,
            expected: 40
        })
    );

    let mut header = valid("MYSETTING.DAT");
    header[4] = b'X';
    header[36] = b'X';
    assert_eq!(validate("MYSETTING.DAT", &header), Err(SettingsError::BadHeader));

    let mut crc = valid("MYSETTING.DAT");
    crc[104] ^= 0xff;
    assert!(matches!(
        validate("MYSETTING.DAT", &crc),
        Err(SettingsError::ChecksumMismatch { .. })
    ));
}

#[test]
fn u32_parsing_follows_str_parse() {
    assert_eq!(parse_u32("44100"), Some(44100));
    assert_eq!(parse_u32("+7"), Some(7));
    assert_eq!(parse_u32("4294967295"), Some(u32::MAX));
    assert_eq!(parse_u32("4294967296"), None);
    assert_eq!(parse_u32(""), None);
    assert_eq!(parse_u32("-1"), None);
    assert_eq!(parse_u32("12a"), None);
}

#[test]
fn probe_fields_become_a_profile() {
    let info: SourceInfo = source_info(Some("mp3".to_string()), Some("44100"), None, Some("320499"));
    assert_eq!(info.codec, "mp3");
    assert_eq!(info.sample_rate, 44100);
    assert_eq!(info.bitrate_kbps, Some(320));
    assert!(info.is_lossy());
    assert!(info.is_compatible_mp3());

    let flac = source_info(None, Some("N/A"), Some("900500"), Some("1"));
    assert_eq!(flac.codec, "");
    assert_eq!(flac.sample_rate, 0);
    assert_eq!(flac.bitrate_kbps, Some(901));
    assert!(!flac.is_lossy());
    assert!(!flac.is_compatible_mp3());
}

#[test]
fn a_token_reports_its_cancellation() {
    let t = CancelToken::new();
    assert!(!t.is_cancelled());
    let u = t.clone();
    u.cancel();
    assert!(t.is_cancelled());
}
