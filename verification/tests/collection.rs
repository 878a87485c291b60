use baken::export::collection::{Library, LibraryError};
use baken::export::layout::Layout;
use baken::export::plan::{mp3_location, plan_tracks, planned_refs, select_playlists, PlanError, SelectError, Skipped};

const SAMPLE: &str = r#"<?xml version="1.0" encoding="UTF-8"?>
<DJ_PLAYLISTS Version="1.0.0">
  <PRODUCT Name="rekordbox" Version="7.2.18" Company="AlphaTheta"/>
  <COLLECTION Entries="2">
    <TRACK TrackID="352" Name="Unreal" Artist="XamarA" Album="" Genre="Techno" Kind="MP3 File" Size="18920358" TotalTime="472" DiscNumber="0" TrackNumber="0" Year="0" AverageBpm="128.00" DateAdded="2023-09-06" BitRate="320" SampleRate="48000" Comments="" PlayCount="1" Rating="153" Location="file://localhost/Volumes/X/Music/Unreal.mp3" Remixer="" Tonality="1A" Label="" Mix="" Colour="0xFFFF00">
      <TEMPO Inizio="0.281" Bpm="128.00" Metro="4/4" Battito="1"/>
      <POSITION_MARK Name="" Type="0" Start="0.281" Num="-1"/>
      <POSITION_MARK Name="" Type="0" Start="15.280" Num="1" Red="40" Green="226" Blue="20"/>
      <POSITION_MARK Name="lp" Type="4" Start="30.000" End="33.750" Num="-1"/>
    </TRACK>
    <TRACK TrackID="2" Name="&amp;" Artist="A" Kind="FLAC File" Size="1" TotalTime="1" AverageBpm="0" Location="file://localhost/V/22.%20%E7%9B%BE.flac" Tonality=""/>
  </COLLECTION>
  <PLAYLISTS>
    <NODE Type="0" Name="ROOT" Count="2">
      <NODE Name="Sets" Type="0" Count="1">
        <NODE Name="Friday" Type="1" KeyType="0" Entries="2">
          <TRACK Key="352"/>
          <TRACK Key="2"/>
        </NODE>
      </NODE>
      <NODE Name="Empty" Type="1" KeyType="0" Entries="0"/>
    </NODE>
  </PLAYLISTS>
</DJ_PLAYLISTS>"#;

#[test]
fn parses_tracks_children_and_tree() {
    let lib = Library::parse(SAMPLE.as_bytes()).unwrap();
    assert_eq!(lib.tracks.len(), 2);
    let t = &lib.tracks[0];
    assert_eq!((t.id, t.stars(), t.colour), (352, 3, Some(0xFFFF00)));
    assert_eq!(t.location, "/Volumes/X/Music/Unreal.mp3");
    assert_eq!(t.tempos.len(), 1);
    assert_eq!(t.cues.len(), 3);
    assert!(t.cues[1].is_hot() && t.cues[1].rgb == Some((40, 226, 20)));
    // a loop: its Type is 4 and it has an End
    assert_eq!(t.cues[2].kind.as_deref(), Some("4"));
    assert_eq!(t.cues[2].end.as_deref().map(|e| e.parse::<f64>().unwrap()), Some(33.75));
    assert_eq!(lib.tracks[1].name, "&");
    assert_eq!(lib.tracks[1].file_name(), "22. 盾.flac");
    let paths: Vec<_> = lib
        .playlists
        .iter()
        .map(|p| (p.path.as_str(), p.is_folder))
        .collect();
    assert_eq!(
        paths,
        vec![("Sets", true), ("Sets/Friday", false), ("Empty", false)]
    );
    let friday = lib.playlist("Sets/Friday").unwrap();
    assert_eq!(lib.playlists[friday].track_ids, vec![352, 2]);
    assert_eq!(lib.playlists[1].parent, Some(0));
    assert_eq!(lib.track(2), Some(1));
    assert_eq!(lib.track(99), None);
    assert!(baken::export::build::model::is_tree(&lib.playlists));
    let mut looped = lib.playlists.clone();
    looped[0].parent = Some(1);
    assert!(!baken::export::build::model::is_tree(&looped));
}

#[test]
fn fields_and_beat_grid_keep_their_text() {
    let lib = Library::parse(SAMPLE.as_bytes()).unwrap();
    let t = &lib.tracks[0];
    assert_eq!(t.name, "Unreal");
    assert_eq!(t.size, 18920358);
    assert_eq!(t.total_time, 472);
    assert_eq!(t.bit_rate, 320);
    assert_eq!(t.sample_rate, 48000);
    assert_eq!(t.play_count, 1);
    assert_eq!(t.average_bpm, "128.00");
    assert_eq!(t.tonality, "1A");
    assert_eq!(t.tempos[0].bpm.as_deref(), Some("128.00"));
    assert_eq!(t.tempos[0].metro, "4/4");
    assert_eq!(t.cues[0].num, -1);
    assert_eq!(t.cues[1].num, 1);
    assert_eq!(t.cues[2].name, "lp");
    assert_eq!(lib.tracks[1].colour, None);
}

#[test]
fn broken_values_are_errors() {
    let bad_key = SAMPLE.replace("<TRACK Key=\"2\"/>", "<TRACK Key=\"two\"/>");
    assert_eq!(Library::parse(bad_key.as_bytes()).unwrap_err(), LibraryError::Number);
    let bad_colour = SAMPLE.replace("Red=\"40\"", "Red=\"400\"");
    assert_eq!(Library::parse(bad_colour.as_bytes()).unwrap_err(), LibraryError::Number);
    let bad_location = SAMPLE.replace("file://localhost/V/", "http://V/");
    assert!(matches!(Library::parse(bad_location.as_bytes()), Err(LibraryError::Location(_))));
    assert!(matches!(Library::parse(b"<A></B>"), Err(LibraryError::Xml(_))));
}

#[test]
fn playlists_are_selected_by_path_or_all() {
    let lib = Library::parse(SAMPLE.as_bytes()).unwrap();
    assert_eq!(select_playlists(&lib, &[]).unwrap(), vec![1, 2]);
    assert_eq!(
        select_playlists(&lib, &[" /Sets/Friday/ ".to_string(), "Sets/Friday".to_string()]).unwrap(),
        vec![1]
    );
    assert_eq!(
        select_playlists(&lib, &["Nope".to_string()]).unwrap_err(),
        SelectError::PlaylistNotFound("Nope".to_string())
    );
    let paths = SAMPLE.replace("KeyType=\"0\" Entries=\"0\"", "KeyType=\"1\" Entries=\"0\"");
    let lib = Library::parse(paths.as_bytes()).unwrap();
    assert_eq!(
        select_playlists(&lib, &["Empty".to_string()]).unwrap_err(),
        SelectError::UnsupportedPlaylistType { path: "Empty".into(), key_type: "1".into() }
    );
    let none = SAMPLE.replace("KeyType=\"0\"", "KeyType=\"1\"");
    let lib = Library::parse(none.as_bytes()).unwrap();
    assert_eq!(select_playlists(&lib, &[]).unwrap_err(), SelectError::NoPlaylists);
}

#[test]
fn transcoded_files_sit_next_to_their_source() {
    assert_eq!(mp3_location("/Volumes/X/Music/Unreal.flac"), "/Volumes/X/Music/Unreal.mp3");
    assert_eq!(mp3_location("/a/b.c/track"), "/a/b.c/track.mp3");
    assert_eq!(mp3_location("x.wav"), "/x.mp3");
}

fn device_track(t: &baken::export::collection::Track, usb_path: &str) -> baken::export::build::model::DeviceTrack {
    baken::export::build::model::DeviceTrack {
        track: t.clone(),
        usb_path: usb_path.to_string(),
        anlz_dir: "/PIONEER/USBANLZ/P001/00000001".to_string(),
        file_size: 5_000_000_000,
        sample_depth: 16,
        file_type: 1,
        bitrate: 320,
        sample_rate: 48000,
        tempo: 12800,
    }
}

#[test]
fn export_model_numbers_names_and_keeps_the_selected_tree() {
    let lib = Library::parse(SAMPLE.as_bytes()).unwrap();
    let tracks = vec![
        device_track(&lib.tracks[0], "/Contents/XamarA/UnknownAlbum/Unreal.mp3"),
        device_track(&lib.tracks[1], "/Contents/A/UnknownAlbum/x.flac"),
    ];
    let keys: Vec<String> = vec!["1A".to_string(), "2A".to_string()];
    let colors = [(1u8, 0xFF0000u32), (5u8, 0xFFFF00u32)];
    let e = baken::export::build::model::build(&lib, &tracks, &[1], "USB", "2024-01-02", &keys, &colors);
    assert_eq!(e.tracks.len(), 2);
    let r = &e.tracks[0];
    assert_eq!((r.id, r.artist_id, r.genre_id, r.key_id, r.color_id, r.rating), (1, 1, 1, 1, 5, 3));
    assert_eq!(r.file_size, u32::MAX);
    assert_eq!(r.filename, "Unreal.mp3");
    assert_eq!(r.analyze_path, "/PIONEER/USBANLZ/P001/00000001/ANLZ0000.DAT");
    assert_eq!(r.analyze_date, "2024-01-02");
    assert_eq!(r.tempo, 12800);
    let r2 = &e.tracks[1];
    assert_eq!((r2.id, r2.artist_id, r2.genre_id, r2.key_id, r2.color_id, r2.album_id), (2, 2, 0, 0, 0, 0));
    assert_eq!(e.artists, vec![(1, "XamarA".to_string()), (2, "A".to_string())]);
    assert_eq!(e.genres, vec![(1, "Techno".to_string())]);
    assert!(e.albums.is_empty() && e.labels.is_empty());
    // the folder above the selected playlist comes along; "Empty" does not
    let nodes: Vec<_> = e
        .playlists
        .iter()
        .map(|p| (p.id, p.parent, p.sort_order, p.is_folder, p.name.as_str(), p.track_ids.clone()))
        .collect();
    assert_eq!(
        nodes,
        vec![
            (1, 0, 0, true, "Sets", vec![]),
            (2, 1, 0, false, "Friday", vec![1, 2]),
        ]
    );
    assert_eq!((e.device_name.as_str(), e.export_date.as_str()), ("USB", "2024-01-02"));
}

#[test]
fn export_model_orders_siblings_and_shares_albums() {
    let lib = Library::parse(SAMPLE.as_bytes()).unwrap();
    let mut a = lib.tracks[0].clone();
    a.album = " Same ".to_string();
    let mut b = lib.tracks[1].clone();
    b.album = "Same".to_string();
    let mut c = lib.tracks[1].clone();
    c.album = "Same".to_string();
    let tracks = vec![
        device_track(&a, "/Contents/a.mp3"),
        device_track(&b, "/Contents/b.flac"),
        device_track(&c, "/Contents/c.flac"),
    ];
    let e = baken::export::build::model::build(&lib, &tracks, &[2, 1], "USB", "2024-01-02", &vec![], &[]);
    // two artists on one album: the album has no single artist
    assert_eq!(e.albums, vec![(1, 0, "Same".to_string())]);
    assert!(e.tracks.iter().all(|r| r.album_id == 1));
    let nodes: Vec<_> = e.playlists.iter().map(|p| (p.id, p.parent, p.sort_order, p.name.as_str())).collect();
    assert_eq!(nodes, vec![(1, 0, 0, "Sets"), (2, 1, 0, "Friday"), (3, 0, 1, "Empty")]);
    // TrackID 2 appears twice among the device tracks: the last row wins
    assert_eq!(e.playlists[1].track_ids, vec![1, 3]);
}

#[test]
fn civil_dates_of_unix_times() {
    assert_eq!(baken::export::build::civil_date(0), "1970-01-01");
    assert_eq!(baken::export::build::civil_date(86399), "1970-01-01");
    assert_eq!(baken::export::build::civil_date(951_782_400), "2000-02-29");
    assert_eq!(baken::export::build::civil_date(1_704_067_199), "2023-12-31");
    assert_eq!(baken::export::build::civil_date(1_704_067_200), "2024-01-01");
    assert_eq!(baken::export::build::civil_date(4_107_542_400), "2100-03-01");
    // past 9999 the year keeps all its digits
    assert_eq!(baken::export::build::civil_date(253_402_300_800), "10000-01-01");
}

fn layout_track(artist: &str, album: &str, file: &str) -> baken::export::collection::Track {
    baken::export::collection::Track {
        artist: artist.into(),
        album: album.into(),
        location: format!("/Volumes/X/{file}"),
        ..Default::default()
    }
}

#[test]
fn rekordbox_naming_rules() {
    let mut l = baken::export::layout::Layout::default();
    assert_eq!(
        l.assign(&layout_track(
            "Lidvall",
            "The Strange Guy EP",
            "Lidvall - The Strange Guy EP - 05 Where have you been-.flac"
        )),
        "/Contents/Lidvall/The Strange Guy EP/Lidvall - The Strange Guy EP - 05 Where hav.flac"
    );
    assert_eq!(
        l.assign(&layout_track("6EJOU ", "", "6EJOU - Psycho Dreams.aif")),
        "/Contents/6EJOU/UnknownAlbum/6EJOU - Psycho Dreams.aif"
    );
    assert_eq!(
        l.assign(&layout_track("Oktobr", "CRVA002 | ANNIVERSARY", "x.flac")),
        "/Contents/Oktobr/CRVA002 _ ANNIVERSARY/x.flac"
    );
    // second file truncating to the same stem gets a suffix
    let a = l.assign(&layout_track(
        "T.A.M",
        "",
        "T.A.M - Raw-Hypnotic 2023 - Year Compilation - 11 Speedy Hypno.flac",
    ));
    let b = l.assign(&layout_track(
        "T.A.M",
        "",
        "T.A.M - Raw-Hypnotic 2023 - Year Compilation - 12 Other.flac",
    ));
    assert_eq!(
        a,
        "/Contents/T.A.M/UnknownAlbum/T.A.M - Raw-Hypnotic 2023 - Year Compilatio.flac"
    );
    assert_eq!(
        b,
        "/Contents/T.A.M/UnknownAlbum/T.A.M - Raw-Hypnotic 2023 - Year Compilat-1.flac"
    );
    assert_eq!(
        l.assign(&layout_track("", "", "盾.mp3")),
        "/Contents/UnknownArtist/UnknownAlbum/盾.mp3"
    );
}

#[test]
fn paths_differing_only_in_case_collide() {
    let mut l = baken::export::layout::Layout::new();
    assert_eq!(l.assign(&layout_track("A", "B", "Song.mp3")), "/Contents/A/B/Song.mp3");
    assert_eq!(l.assign(&layout_track("a", "b", "SONG.mp3")), "/Contents/a/b/SONG-1.mp3");
    assert_eq!(l.assign(&layout_track("A", "B", "song.MP3")), "/Contents/A/B/song-2.MP3");
}

#[test]
fn planned_refs_take_each_track_once_in_playlist_order() {
    let xml = r#"<DJ_PLAYLISTS Version="1.0.0">
  <COLLECTION Entries="2">
    <TRACK TrackID="7" Name="Seven" Location="file://localhost/m/7.mp3"/>
    <TRACK TrackID="9" Name="Nine" Location="file://localhost/m/9.mp3"/>
  </COLLECTION>
  <PLAYLISTS>
    <NODE Type="0" Name="ROOT" Count="2">
      <NODE Name="A" Type="1" KeyType="0" Entries="3"><TRACK Key="9"/><TRACK Key="4"/><TRACK Key="9"/></NODE>
      <NODE Name="B" Type="1" KeyType="0" Entries="2"><TRACK Key="7"/><TRACK Key="9"/></NODE>
    </NODE>
  </PLAYLISTS>
</DJ_PLAYLISTS>"#;
    let lib = Library::parse(xml.as_bytes()).unwrap();
    let refs = baken::export::plan::planned_refs(&lib, &[0, 1]);
    assert_eq!(refs, vec![(9, Some(1)), (4, None), (7, Some(0))]);
    let refs = baken::export::plan::planned_refs(&lib, &[1, 0]);
    assert_eq!(refs, vec![(7, Some(0)), (9, Some(1)), (4, None)]);
}

fn wav_header(bits: u16, with_list: bool) -> Vec<u8> {
    let mut h = b"RIFF\0\0\0\0WAVE".to_vec();
    if with_list {
        // an odd-length chunk is padded to an even length
        h.extend_from_slice(b"LIST\x03\0\0\0abc\0");
    }
    h.extend_from_slice(b"fmt \x10\0\0\0");
    h.extend_from_slice(&[1, 0, 2, 0, 0x44, 0xac, 0, 0, 0, 0, 0, 0, 4, 0]);
    h.extend_from_slice(&bits.to_le_bytes());
    h.extend_from_slice(b"data\0\0\0\0");
    h
}

#[test]
fn sample_depth_reads_flac_wav_aiff_and_alac_headers() {
    let mut flac = b"fLaC\0\0\0\x22".to_vec();
    flac.extend_from_slice(&[0; 12]);
    flac.extend_from_slice(&[0x01, 0x70, 0, 0]);
    assert_eq!(baken::export::layout::sample_depth(&flac), 24);
    assert_eq!(baken::export::layout::sample_depth(&wav_header(16, false)), 16);
    assert_eq!(baken::export::layout::sample_depth(&wav_header(24, true)), 24);
    let mut aiff = b"FORM\0\0\0\0AIFF".to_vec();
    aiff.extend_from_slice(b"COMM\0\0\0\x12\0\x02\0\0\0\x10\0\x20");
    aiff.extend_from_slice(&[0; 10]);
    assert_eq!(baken::export::layout::sample_depth(&aiff), 32);
    let mut alac = b"\0\0\0\x20ftypM4A ".to_vec();
    alac.extend_from_slice(b"....alac....alac");
    alac.extend_from_slice(&[0; 9]);
    alac.extend_from_slice(&[0x18, 0, 0]);
    assert_eq!(baken::export::layout::sample_depth(&alac), 24);
    // lossy or unknown: 16, and so is a depth outside 8..=32
    assert_eq!(baken::export::layout::sample_depth(b"ID3\x04\0\0\0\0\0\0"), 16);
    assert_eq!(baken::export::layout::sample_depth(&wav_header(40, false)), 16);
    // a truncated FLAC header is not readable
    assert_eq!(baken::export::layout::header_depth(b"fLaC\0\0"), None);
}

fn probe(size: Option<u64>, analysis: Option<usize>) -> baken::export::plan::TrackProbe {
    baken::export::plan::TrackProbe { size, analysis, sample_depth: 24, tempo: 12800 }
}

#[test]
fn planned_tracks_are_laid_out_or_skipped_with_a_reason() {
    let xml = SAMPLE.replace("<TRACK Key=\"2\"/>", "<TRACK Key=\"2\"/><TRACK Key=\"99\"/><TRACK Key=\"352\"/>");
    let lib = Library::parse(xml.as_bytes()).unwrap();
    let selected = select_playlists(&lib, &[]).unwrap();
    let refs = planned_refs(&lib, &selected);
    assert_eq!(refs, vec![(352, Some(0)), (2, Some(1)), (99, None)]);

    let mut layout = Layout::new();
    let probes = [probe(Some(18920358), Some(4)), probe(None, None), probe(None, None)];
    let (tracks, skipped) = plan_tracks(&lib, &selected, &probes, false, false, &mut layout).unwrap();
    assert_eq!(tracks.len(), 1);
    let d = &tracks[0].device;
    assert_eq!(d.usb_path, "/Contents/XamarA/UnknownAlbum/Unreal.mp3");
    assert_eq!(d.anlz_dir, baken::export::anlz::hash::anlz_dir(&d.usb_path));
    assert_eq!((d.file_size, d.sample_depth, d.file_type, d.bitrate, d.sample_rate, d.tempo), (18920358, 24, 1, 320, 48000, 12800));
    assert_eq!(d.track.name, "Unreal");
    assert_eq!(tracks[0].source, "/Volumes/X/Music/Unreal.mp3");
    assert_eq!(tracks[0].analysis, Some(4));
    assert_eq!(
        skipped,
        vec![
            Skipped { name: "&".to_string(), reason: "source file missing: /V/22. \u{76fe}.flac".to_string() },
            Skipped { name: "TrackID 99".to_string(), reason: "not in the collection".to_string() },
        ]
    );
}

#[test]
fn cdjsafe_plans_mp3_files_and_a_second_track_of_a_name_gets_a_suffix() {
    let lib = Library::parse(SAMPLE.as_bytes()).unwrap();
    let selected = select_playlists(&lib, &[]).unwrap();
    let mut layout = Layout::new();
    let probes = [probe(Some(10), None), probe(Some(20), None)];
    let (tracks, skipped) = plan_tracks(&lib, &selected, &probes, true, true, &mut layout).unwrap();
    assert!(skipped.is_empty());
    let d = &tracks[1].device;
    assert_eq!(d.usb_path, "/Contents/A/UnknownAlbum/22. \u{76fe}.mp3");
    assert_eq!((d.sample_depth, d.file_type, d.bitrate, d.sample_rate), (16, 1, 320, 44100));
    assert_eq!(tracks[1].source, "/V/22. \u{76fe}.flac");
    assert_eq!(tracks[1].analysis, None);
    // the same tracks again in the same layout collide with the first round
    let (again, _) = plan_tracks(&lib, &selected, &probes, true, true, &mut layout).unwrap();
    assert_eq!(again[0].device.usb_path, "/Contents/XamarA/UnknownAlbum/Unreal-1.mp3");
}

#[test]
fn nothing_to_export_when_every_track_is_skipped() {
    let lib = Library::parse(SAMPLE.as_bytes()).unwrap();
    let selected = select_playlists(&lib, &[]).unwrap();
    let mut layout = Layout::new();
    let probes = [probe(Some(10), None), probe(None, Some(0))];
    assert_eq!(
        plan_tracks(&lib, &selected, &probes, false, false, &mut layout).unwrap_err(),
        PlanError::NothingToExport
    );
}

fn path_components(p: &str) -> Vec<String> {
    std::path::Path::new(p)
        .components()
        .map(|c| match c {
            std::path::Component::RootDir => "/".to_string(),
            other => other.as_os_str().to_string_lossy().into_owned(),
        })
        .collect()
}

#[test]
fn the_stick_is_named_as_given_else_by_its_folder_else_usb() {
    let device_name = baken::export::plan::device_name;
    assert_eq!(device_name(Some("Gig"), &path_components("/media/STICK")), "Gig");
    assert_eq!(device_name(None, &path_components("/media/STICK")), "STICK");
    assert_eq!(device_name(None, &path_components("/media/STICK/")), "STICK");
    assert_eq!(device_name(None, &path_components("/")), "USB");
    assert_eq!(device_name(None, &path_components("/media/..")), "USB");
}

#[test]
fn a_parsed_library_forms_a_tree() {
    let lib = Library::parse(SAMPLE.as_bytes()).unwrap();
    assert!(baken::export::build::model::is_tree(&lib.playlists));
    let friday = lib.playlist("Sets/Friday").unwrap();
    assert!(lib.playlists[friday].parent.unwrap() < friday);
}
