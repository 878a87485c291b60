use baken::cdjsafe::transcode::{parse_u64, SourceInfo};
use baken::cdjsafe::xml::{collect_tracks, find_playlist, rewrite_xml, CdjError, NewTrack};
use baken::cdjsafe::{
    action_for, conversion_outcome, count, default_output_path, missing_total_time, new_tracks,
    out_file_name, output_playlist_name, partition, plan_target, plan_tracks, Action, ConvertError,
    PlanError,
};

const SAMPLE_XML: &str = r#"<?xml version="1.0" encoding="UTF-8"?>
<DJ_PLAYLISTS Version="1.0.0">
  <COLLECTION Entries="3">
    <TRACK TrackID="1" Name="Alpha &amp; Beta" Artist="DJ A" Kind="FLAC File" Size="30000000" TotalTime="245" AverageBpm="120.00" SampleRate="96000" BitRate="2000" Tonality="1A" Comments="great tune" Location="file://localhost/Users/dj/Music/alpha%20beta.flac">
      <TEMPO Inizio="0.025" Bpm="120.00" Metro="4/4" Battito="1"/>
      <POSITION_MARK Name="" Type="0" Start="0.025" Num="-1"/>
      <POSITION_MARK Name="drop" Type="0" Start="30.5" Num="0" Red="40" Green="226" Blue="20"/>
    </TRACK>
    <TRACK TrackID="7" Name="Gamma" Kind="MP3 File" Size="9000000" TotalTime="200" SampleRate="44100" BitRate="320" Location="file://localhost/Users/dj/Music/gamma.mp3"/>
    <TRACK TrackID="3" Name="Unrelated" TotalTime="100" Location="file://localhost/Users/dj/Music/other.wav"/>
  </COLLECTION>
  <PLAYLISTS>
    <NODE Type="0" Name="ROOT" Count="1">
      <NODE Name="Gig" Type="1" KeyType="0" Entries="2">
        <TRACK Key="7"/>
        <TRACK Key="1"/>
      </NODE>
    </NODE>
  </PLAYLISTS>
</DJ_PLAYLISTS>
"#;

#[test]
fn find_playlist_returns_ids_and_max_track_id() {
    let (ids, max_id) = find_playlist(SAMPLE_XML.as_bytes(), &["Gig".to_string()]).unwrap();
    assert_eq!(ids, vec!["7", "1"]);
    assert_eq!(max_id, 7);
}

#[test]
fn find_playlist_missing_errors() {
    assert!(find_playlist(SAMPLE_XML.as_bytes(), &["Nope".to_string()]).is_err());
    assert_eq!(
        find_playlist(SAMPLE_XML.as_bytes(), &["Nope".to_string()]).unwrap_err(),
        CdjError::PlaylistNotFound
    );
}

#[test]
fn a_path_playlist_is_refused() {
    let xml = SAMPLE_XML.replace("KeyType=\"0\"", "KeyType=\"1\"");
    assert_eq!(
        find_playlist(xml.as_bytes(), &["Gig".to_string()]).unwrap_err(),
        CdjError::NotTrackIds("1".to_string())
    );
}

#[test]
fn collect_tracks_preserves_playlist_order_and_children() {
    let ids = vec!["7".to_string(), "1".to_string()];
    let tracks = collect_tracks(SAMPLE_XML.as_bytes(), &ids).unwrap();
    assert_eq!(tracks.len(), 2);
    assert_eq!(tracks[0].id, "7");
    assert_eq!(tracks[0].location, "/Users/dj/Music/gamma.mp3");
    assert!(tracks[0].children.is_empty());
    assert_eq!(tracks[1].id, "1");
    assert_eq!(tracks[1].name, "Alpha & Beta");
    assert_eq!(tracks[1].location, "/Users/dj/Music/alpha beta.flac");
    assert!(tracks[1].has_total_time);
    // TEMPO + 2 POSITION_MARKs, with the whitespace between them
    let children = String::from_utf8(tracks[1].children.clone()).unwrap();
    let elem_children = children.matches("<TEMPO ").count() + children.matches("<POSITION_MARK ").count();
    assert_eq!(elem_children, 3);
}

#[test]
fn rewrite_emits_new_tracks_playlist_and_bumped_counts() {
    let ids = vec!["7".to_string(), "1".to_string()];
    let sources = collect_tracks(SAMPLE_XML.as_bytes(), &ids).unwrap();
    let new_tracks = vec![
        NewTrack {
            track_id: 8,
            location_url: "file://localhost/Users/dj/cdjsafe/gamma.mp3".into(),
            size: 9000000,
        },
        NewTrack {
            track_id: 9,
            location_url: "file://localhost/Users/dj/cdjsafe/alpha%20beta.mp3".into(),
            size: 9800000,
        },
    ];
    let out = rewrite_xml(SAMPLE_XML.as_bytes(), &sources, &new_tracks, "Gig").unwrap();
    let out_str = String::from_utf8(out).unwrap();

    // Collection Entries bumped 3 -> 5
    assert!(out_str.contains(r#"<COLLECTION Entries="5">"#));
    // ROOT Count bumped 1 -> 2
    assert!(out_str.contains(r#"Name="ROOT" Count="2""#));
    // New FLAC-derived track: fresh TrackID, recomputed attrs, marker,
    // escaping of the source Name preserved verbatim
    assert!(out_str.contains(r#"TrackID="9" Name="Alpha &amp; Beta""#));
    assert!(out_str.contains(r#"Kind="MP3 File""#));
    assert!(out_str.contains(r#"Size="9800000""#));
    assert!(out_str.contains(r#"BitRate="320""#));
    assert!(out_str.contains(r#"SampleRate="44100""#));
    assert!(out_str.contains(r#"Comments="great tune [cdjsafe]""#));
    assert!(out_str.contains(r#"Location="file://localhost/Users/dj/cdjsafe/alpha%20beta.mp3""#));
    // Cue/grid children duplicated into the new track (source had one set)
    assert_eq!(out_str.matches(r#"Start="30.5""#).count(), 2);
    assert_eq!(out_str.matches("<TEMPO ").count(), 2);
    // Copied MP3 track gets Comments added even though source had none
    assert!(out_str.contains(r#"TrackID="8""#));
    assert!(out_str.contains(r#"Comments="[cdjsafe]""#));
    // New playlist folder with the track refs
    assert!(out_str.contains(r#"Name="CDJ-safe (MP3)" Count="1""#));
    assert!(out_str.contains(r#"<NODE Name="Gig" Type="1" KeyType="0" Entries="2"><TRACK Key="8"/><TRACK Key="9"/></NODE>"#));
    // Original tracks untouched
    assert!(out_str.contains(r#"TrackID="1" Name="Alpha &amp; Beta""#));
    assert!(out_str.contains(r#"Kind="FLAC File""#));
}

#[test]
fn collect_missing_track_errors() {
    let ids = vec!["99".to_string()];
    assert!(collect_tracks(SAMPLE_XML.as_bytes(), &ids).is_err());
    assert_eq!(
        collect_tracks(SAMPLE_XML.as_bytes(), &ids).unwrap_err(),
        CdjError::MissingTrack("99".to_string())
    );
    // Each captured track is handed out once.
    let twice = vec!["7".to_string(), "7".to_string()];
    assert_eq!(
        collect_tracks(SAMPLE_XML.as_bytes(), &twice).unwrap_err(),
        CdjError::MissingTrack("7".to_string())
    );
}

#[test]
fn plan_skips_missing_files_and_renames_output_playlist() {
    let target = plan_target("Gig").unwrap();
    let (all, max) = plan_tracks(SAMPLE_XML.as_bytes(), &target).unwrap();
    assert_eq!(max, 7);
    let (sources, skipped) = partition(all, &[true, false]).unwrap();
    assert_eq!(sources.len(), 1);
    assert_eq!(skipped.len(), 1);
    assert_eq!(skipped[0].name, "Alpha & Beta");
    assert_eq!(skipped[0].track_id, "1");
    assert_eq!(output_playlist_name(&target), "Gig-CDJ-safe");
}

#[test]
fn plan_fails_when_every_file_is_missing() {
    let target = plan_target("Gig").unwrap();
    let (all, _) = plan_tracks(SAMPLE_XML.as_bytes(), &target).unwrap();
    let err = partition(all, &[false, false]).unwrap_err();
    assert_eq!(err, PlanError::AllSourcesMissing { count: 2 });
    assert_eq!(plan_target(" / ").unwrap_err(), PlanError::EmptyPlaylistPath);
    let empty = SAMPLE_XML.replace("<TRACK Key=\"7\"/>", "").replace("<TRACK Key=\"1\"/>", "");
    assert_eq!(plan_tracks(empty.as_bytes(), &target).unwrap_err(), PlanError::EmptyPlaylist);
}

#[test]
fn default_output_appends_out_to_stem() {
    assert_eq!(default_output_path("/a/b/c.xml"), Some("/a/b/c-out.xml".to_string()));
}

#[test]
fn default_output_for_bare_filename() {
    assert_eq!(default_output_path("coll.xml"), Some("coll-out.xml".to_string()));
}

#[test]
fn default_output_without_extension() {
    assert_eq!(default_output_path("/a/b/c"), Some("/a/b/c-out".to_string()));
}

#[test]
fn default_output_name_edges() {
    assert_eq!(out_file_name(".hidden"), ".hidden-out");
    assert_eq!(out_file_name("a.tar.gz"), "a.tar-out.gz");
    assert_eq!(default_output_path("/a/b/c.xml/"), Some("/a/b/c-out.xml".to_string()));
    assert_eq!(default_output_path("/"), None);
    assert_eq!(default_output_path(""), None);
    assert_eq!(default_output_path("/a/.."), None);
    assert_eq!(default_output_path("/a/b/."), Some("/a/b-out".to_string()));
    assert_eq!(default_output_path("c.xml/./"), Some("c-out.xml".to_string()));
    assert_eq!(default_output_path("."), None);
    assert_eq!(default_output_path("/."), None);
}

#[test]
fn conversion_fails_as_a_whole() {
    let names = vec!["A".to_string(), "B".to_string(), "C".to_string()];
    let all_ok = vec![Some(Ok(Action::Copy)), Some(Ok(Action::Reencode)), Some(Ok(Action::ReencodeLossy))];
    assert_eq!(
        conversion_outcome(&names, &all_ok, false),
        Ok(vec![Action::Copy, Action::Reencode, Action::ReencodeLossy])
    );
    assert_eq!(conversion_outcome(&names, &all_ok, true), Err(ConvertError::Cancelled));
    let one_bad = vec![Some(Ok(Action::Copy)), Some(Err("boom".to_string())), Some(Ok(Action::Copy))];
    assert_eq!(
        conversion_outcome(&names, &one_bad, false),
        Err(ConvertError::ConversionFailed { failures: vec!["B: boom".to_string()], total: 3 })
    );
    let skipped = vec![Some(Ok(Action::Copy)), None, Some(Ok(Action::Copy))];
    assert_eq!(conversion_outcome(&names, &skipped, false), Ok(vec![Action::Copy, Action::Copy]));
}

#[test]
fn each_track_gets_its_action_and_ids_count_on() {
    let mp3 = SourceInfo { codec: "mp3".into(), sample_rate: 44100, bitrate_kbps: Some(320) };
    let low = SourceInfo { codec: "mp3".into(), sample_rate: 44100, bitrate_kbps: Some(192) };
    let flac = SourceInfo { codec: "flac".into(), sample_rate: 96000, bitrate_kbps: None };
    let actions = [action_for(&mp3), action_for(&low), action_for(&flac)];
    assert_eq!(actions, [Action::Copy, Action::ReencodeLossy, Action::Reencode]);
    assert_eq!(count(&actions, Action::Reencode), 1);

    let v = new_tracks(vec!["file://localhost/a.mp3".into(), "file://localhost/b.mp3".into()], &[10, 20], 7);
    assert_eq!((v[0].track_id, v[1].track_id), (8, 9));
    assert_eq!(v[1].size, 20);
    assert_eq!(parse_u64("18446744073709551615"), Some(u64::MAX));
    assert_eq!(parse_u64("18446744073709551616"), None);
}

#[test]
fn tracks_without_total_time_are_listed() {
    let ids = vec!["7".to_string(), "1".to_string()];
    let xml = SAMPLE_XML.replace(" TotalTime=\"200\"", "");
    let tracks = collect_tracks(xml.as_bytes(), &ids).unwrap();
    assert_eq!(missing_total_time(&tracks), vec!["Gamma"]);
}

fn source_at(location: &str) -> baken::cdjsafe::xml::SourceTrack {
    baken::cdjsafe::xml::SourceTrack {
        id: "1".to_string(),
        name: "Name".to_string(),
        location: location.to_string(),
        has_total_time: true,
        attrs: Vec::new(),
        children: Vec::new(),
    }
}

#[test]
fn mod_filenames_are_sanitized_lowercase_mp3_and_collision_free() {
    let sources = vec![
        source_at("/m/Track One.FLAC"),
        source_at("/m/other/Track One.wav"),
        source_at("/m/bad:name?.aiff"),
    ];
    let out = baken::cdjsafe::plan_filenames(&sources, "/out");
    assert_eq!(out[0], "/out/Track One.mp3");
    assert_eq!(out[1], "/out/Track One (2).mp3");
    assert_eq!(out[2], "/out/bad_name_.mp3");
}

#[test]
fn filenames_collide_up_to_case_and_fall_back_to_the_track_name() {
    let sources = vec![
        source_at("/m/a/SONG.flac"),
        source_at("/m/b/song.wav"),
        source_at("/m/c/Song.aiff"),
        source_at("/m/.hidden"),
        source_at("/m/dir/.."),
    ];
    let out = baken::cdjsafe::plan_filenames(&sources, "/");
    assert_eq!(
        out,
        vec!["/SONG.mp3", "/song (2).mp3", "/Song (3).mp3", "/.hidden.mp3", "/Name.mp3"]
    );
}
