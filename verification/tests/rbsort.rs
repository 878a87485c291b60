use baken::rbsort::camelot::parse_camelot;
use baken::rbsort::order::{sort_tracks, TrackMeta};
use baken::rbsort::xml::{
    rewrite, scan, select_targets, sort_selected, CollectionEntry, SortError, SortedPlaylist,
};

/// The collection as the sort reads it: the BPM text parsed as a positive
/// float and kept as its bits.
fn metas(col: &[CollectionEntry]) -> Vec<(String, TrackMeta)> {
    col.iter()
        .map(|e| {
            let bpm = e
                .bpm
                .as_ref()
                .and_then(|b| b.parse::<f64>().ok())
                .filter(|v| *v > 0.0)
                .map(f64::to_bits);
            (e.id.clone(), TrackMeta { camelot: e.camelot, bpm })
        })
        .collect()
}

fn get<'a>(col: &'a [CollectionEntry], id: &str) -> Option<&'a CollectionEntry> {
    col.iter().rev().find(|e| e.id == id)
}

const SAMPLE_XML: &str = r#"<?xml version="1.0" encoding="UTF-8"?>
<DJ_PLAYLISTS Version="1.0.0">
  <COLLECTION Entries="3">
    <TRACK TrackID="1" Name="Slow" AverageBpm="120.00" Tonality="1A"/>
    <TRACK TrackID="2" Name="Fast" AverageBpm="128.00" Tonality="1A"/>
    <TRACK TrackID="3" Name="Other" AverageBpm="124.00" Tonality="12B"/>
  </COLLECTION>
  <PLAYLISTS>
    <NODE Type="0" Name="ROOT" Count="1">
      <NODE Name="MyList" Type="1" KeyType="0" Entries="3">
        <TRACK Key="2"/>
        <TRACK Key="1"/>
        <TRACK Key="3"/>
      </NODE>
    </NODE>
  </PLAYLISTS>
</DJ_PLAYLISTS>
"#;

#[test]
fn scan_collects_single_playlist() {
    let s = scan(SAMPLE_XML.as_bytes()).unwrap();
    assert_eq!(s.collection.len(), 3);
    assert_eq!(s.playlists.len(), 1);
    assert_eq!(s.playlists[0].path, vec!["MyList".to_string()]);
    assert_eq!(s.playlists[0].key_type, "0");
    assert_eq!(s.playlists[0].track_ids, vec!["2", "1", "3"]);
}

fn sort_all(xml: &str, target: Option<&[String]>) -> Vec<SortedPlaylist> {
    let s = scan(xml.as_bytes()).unwrap();
    let col = metas(&s.collection);
    sort_selected(select_targets(s.playlists, target).unwrap(), &col).unwrap()
}

#[test]
fn full_roundtrip_reorders_tracks_in_place() {
    let target = vec!["MyList".to_string()];
    let sorted = sort_all(SAMPLE_XML, Some(&target));
    assert_eq!(sorted[0].track_ids, vec!["1", "2", "3"]);

    let out = rewrite(SAMPLE_XML.as_bytes(), &sorted).unwrap();
    let out_str = String::from_utf8(out).unwrap();
    // Only the TRACK refs move; whitespace, attributes and ROOT Count are untouched.
    let expected = SAMPLE_XML.replace(
        r#"<TRACK Key="2"/>
        <TRACK Key="1"/>"#,
        r#"<TRACK Key="1"/>
        <TRACK Key="2"/>"#,
    );
    assert_eq!(out_str, expected);
}

#[test]
fn missing_single_target_errors() {
    let s = scan(SAMPLE_XML.as_bytes()).unwrap();
    let result = select_targets(s.playlists, Some(&["Nope".to_string()]));
    assert!(result.is_err());
    assert_eq!(result.unwrap_err(), SortError::PlaylistNotFound);
}

const NESTED_TRACK_XML: &str = r#"<?xml version="1.0" encoding="UTF-8"?>
<DJ_PLAYLISTS Version="1.0.0">
  <COLLECTION Entries="2">
    <TRACK TrackID="1" Name="Slow" AverageBpm="120.00" Tonality="1A">
      <TEMPO Inizio="0.025" Bpm="120.00" Metro="4/4" Battito="1"/>
      <POSITION_MARK Name="" Type="0" Start="0.025" Num="-1"/>
    </TRACK>
    <TRACK TrackID="2" Name="Fast" AverageBpm="128.00" Tonality="1A">
      <TEMPO Inizio="0.010" Bpm="128.00" Metro="4/4" Battito="1"/>
    </TRACK>
  </COLLECTION>
  <PLAYLISTS>
    <NODE Type="0" Name="ROOT" Count="1">
      <NODE Name="MyList" Type="1" KeyType="0" Entries="2">
        <TRACK Key="2"/>
        <TRACK Key="1"/>
      </NODE>
    </NODE>
  </PLAYLISTS>
</DJ_PLAYLISTS>
"#;

#[test]
fn scans_collection_tracks_with_children() {
    let s = scan(NESTED_TRACK_XML.as_bytes()).unwrap();
    let col = metas(&s.collection);
    assert_eq!(get(&s.collection, "1").and_then(|m| m.camelot), parse_camelot("1A"));
    assert_eq!(get(&s.collection, "1").and_then(|m| m.bpm.clone()).map(|b| b.parse::<f64>().unwrap()), Some(120.0));
    assert_eq!(get(&s.collection, "2").and_then(|m| m.camelot), parse_camelot("1A"));
    assert_eq!(get(&s.collection, "2").and_then(|m| m.bpm.clone()).map(|b| b.parse::<f64>().unwrap()), Some(128.0));
    let sorted = sort_tracks(&s.playlists[0].track_ids, &col);
    assert_eq!(sorted, vec!["1", "2"]); // 120 BPM before 128 within 1A
}

const MULTI_PLAYLIST_XML: &str = r#"<?xml version="1.0" encoding="UTF-8"?>
<DJ_PLAYLISTS Version="1.0.0">
  <COLLECTION Entries="4">
    <TRACK TrackID="1" Name="A" AverageBpm="120.00" Tonality="1A"/>
    <TRACK TrackID="2" Name="B" AverageBpm="125.00" Tonality="8A"/>
    <TRACK TrackID="3" Name="C" AverageBpm="130.00" Tonality="12B"/>
    <TRACK TrackID="4" Name="D" AverageBpm="118.00" Tonality="2A"/>
  </COLLECTION>
  <PLAYLISTS>
    <NODE Type="0" Name="ROOT" Count="2">
      <NODE Name="Top" Type="1" KeyType="0" Entries="2">
        <TRACK Key="2"/>
        <TRACK Key="1"/>
      </NODE>
      <NODE Type="0" Name="Folder" Count="2">
        <NODE Name="Inner" Type="1" KeyType="0" Entries="2">
          <TRACK Key="3"/>
          <TRACK Key="4"/>
        </NODE>
        <NODE Name="LocBased" Type="1" KeyType="1" Entries="0"/>
      </NODE>
    </NODE>
  </PLAYLISTS>
</DJ_PLAYLISTS>
"#;

#[test]
fn all_mode_collects_every_keytype0_playlist() {
    let s = scan(MULTI_PLAYLIST_XML.as_bytes()).unwrap();
    // 2 KeyType=0 playlists + 1 KeyType=1 playlist
    assert_eq!(s.playlists.len(), 3);
    let selected = select_targets(s.playlists, None).unwrap();
    // KeyType=1 filtered out
    assert_eq!(selected.len(), 2);
    let names: Vec<&str> = selected
        .iter()
        .map(|p| p.path.last().unwrap().as_str())
        .collect();
    assert!(names.contains(&"Top"));
    assert!(names.contains(&"Inner"));
}

#[test]
fn all_mode_rewrites_each_playlist_where_it_lives() {
    let sorted = sort_all(MULTI_PLAYLIST_XML, None);
    let out = rewrite(MULTI_PLAYLIST_XML.as_bytes(), &sorted).unwrap();
    let out_str = String::from_utf8(out).unwrap();
    let expected = MULTI_PLAYLIST_XML
        .replace(
            r#"<TRACK Key="2"/>
        <TRACK Key="1"/>"#,
            r#"<TRACK Key="1"/>
        <TRACK Key="2"/>"#,
        )
        .replace(
            r#"<TRACK Key="3"/>
          <TRACK Key="4"/>"#,
            r#"<TRACK Key="4"/>
          <TRACK Key="3"/>"#,
        );
    assert_eq!(out_str, expected);
    assert!(!out_str.contains("Sorted"));
}

#[test]
fn single_target_leaves_other_playlists_alone() {
    let target = vec!["Folder".to_string(), "Inner".to_string()];
    let sorted = sort_all(MULTI_PLAYLIST_XML, Some(&target));
    let out = rewrite(MULTI_PLAYLIST_XML.as_bytes(), &sorted).unwrap();
    let out_str = String::from_utf8(out).unwrap();
    // Top keeps its original 2,1 order; Inner becomes 4,3.
    assert!(out_str.contains("<TRACK Key=\"2\"/>\n        <TRACK Key=\"1\"/>"));
    assert!(out_str.contains("<TRACK Key=\"4\"/>\n          <TRACK Key=\"3\"/>"));
}

#[test]
fn single_mode_rejects_non_keytype0_target() {
    let s = scan(MULTI_PLAYLIST_XML.as_bytes()).unwrap();
    let result = select_targets(s.playlists, Some(&["Folder".to_string(), "LocBased".to_string()]));
    assert!(result.is_err());
    assert_eq!(result.unwrap_err(), SortError::NotTrackIds("1".to_string()));
}

#[test]
fn nothing_to_sort_and_broken_documents_are_errors() {
    assert_eq!(sort_selected(Vec::new(), &[]).unwrap_err(), SortError::NothingToSort);
    assert!(matches!(scan(b"<A><B></A>"), Err(SortError::Xml(_))));
    let bad_key = SAMPLE_XML.replace("Tonality=\"1A\"/>", "Tonality=\"1\u{e9}\"/>");
    assert_eq!(scan(bad_key.as_bytes()).unwrap_err(), SortError::KeyNotSplittable);
}

#[test]
fn ids_with_xml_specials_are_escaped_when_written() {
    let xml = SAMPLE_XML.replace("Key=\"3\"", "Key=\"a&amp;b\"");
    let s = scan(xml.as_bytes()).unwrap();
    assert_eq!(s.playlists[0].track_ids, vec!["2", "1", "a&b"]);
    let sorted = vec![SortedPlaylist {
        path: vec!["MyList".to_string()],
        track_ids: vec!["a&b".to_string(), "2".to_string(), "1".to_string()],
    }];
    let out = String::from_utf8(rewrite(xml.as_bytes(), &sorted).unwrap()).unwrap();
    assert!(out.contains("<TRACK Key=\"a&amp;b\"/>\n        <TRACK Key=\"2\"/>\n        <TRACK Key=\"1\"/>"));
}

#[test]
fn sort_file_sorts_rewrites_and_is_a_no_op_the_second_time() {
    let s = scan(SAMPLE_XML.as_bytes()).unwrap();
    let col = metas(&s.collection);
    let (out, sorted) = baken::rbsort::sort_file(SAMPLE_XML.as_bytes(), s.playlists, &col, Some(" /MyList/ ")).unwrap();
    assert_eq!(sorted.len(), 1);
    assert_eq!(sorted[0].track_ids, vec!["1", "2", "3"]);
    // a second run over the output changes nothing
    let s2 = scan(&out).unwrap();
    let col2 = metas(&s2.collection);
    let (again, _) = baken::rbsort::sort_file(&out, s2.playlists, &col2, None).unwrap();
    assert_eq!(again, out);
}

#[test]
fn sort_file_refuses_an_empty_path_and_a_missing_playlist() {
    let s = scan(SAMPLE_XML.as_bytes()).unwrap();
    let col = metas(&s.collection);
    assert_eq!(
        baken::rbsort::sort_file(SAMPLE_XML.as_bytes(), s.playlists.clone(), &col, Some(" / ")).unwrap_err(),
        SortError::EmptyPlaylistPath
    );
    assert_eq!(
        baken::rbsort::sort_file(SAMPLE_XML.as_bytes(), s.playlists, &col, Some("Nope")).unwrap_err(),
        SortError::PlaylistNotFound
    );
    let empty = "<DJ_PLAYLISTS><PLAYLISTS><NODE Type=\"0\" Name=\"ROOT\"></NODE></PLAYLISTS></DJ_PLAYLISTS>";
    let s = scan(empty.as_bytes()).unwrap();
    assert_eq!(baken::rbsort::sort_file(empty.as_bytes(), s.playlists, &[], None).unwrap_err(), SortError::NothingToSort);
}

/// The BPM table a caller hands the document sort: each BPM text of the
/// collection with the bits of its positive value.
fn bpm_table(xml: &str) -> Vec<(String, u64)> {
    scan(xml.as_bytes())
        .map(|s| {
            s.collection
                .iter()
                .filter_map(|e| e.bpm.clone())
                .filter_map(|b| b.parse::<f64>().ok().filter(|v| *v > 0.0).map(|v| (b, v.to_bits())))
                .collect()
        })
        .unwrap_or_default()
}

#[test]
fn sort_document_reads_sorts_and_rewrites() {
    let table = bpm_table(SAMPLE_XML);
    assert_eq!(table.len(), 3);
    let (out, sorted) =
        baken::rbsort::document::sort_document(SAMPLE_XML.as_bytes(), &table, Some("MyList")).unwrap();
    assert_eq!(sorted.len(), 1);
    assert_eq!(sorted[0].track_ids, vec!["1", "2", "3"]);
    let text = String::from_utf8(out.clone()).unwrap();
    assert!(text.contains("<TRACK Key=\"1\"/>\n        <TRACK Key=\"2\"/>\n        <TRACK Key=\"3\"/>"));
    assert_eq!(text.replace("Key=\"1\"", "Key=\"X\"").replace("Key=\"2\"", "Key=\"1\"").replace("Key=\"X\"", "Key=\"2\""), SAMPLE_XML);
    let (again, _) = baken::rbsort::document::sort_document(&out, &bpm_table(&text), None).unwrap();
    assert_eq!(again, out);
}

#[test]
fn sort_document_without_bpm_values_sorts_by_key_then_keeps_order() {
    let (_, sorted) = baken::rbsort::document::sort_document(SAMPLE_XML.as_bytes(), &[], None).unwrap();
    assert_eq!(sorted[0].track_ids, vec!["2", "1", "3"]);
}

#[test]
fn sort_document_checks_the_path_before_reading() {
    let broken = b"<A><B></A>";
    assert_eq!(
        baken::rbsort::document::sort_document(broken, &[], Some(" / ")).unwrap_err(),
        SortError::EmptyPlaylistPath
    );
    assert!(matches!(
        baken::rbsort::document::sort_document(broken, &[], Some("MyList")).unwrap_err(),
        SortError::Xml(_)
    ));
}
