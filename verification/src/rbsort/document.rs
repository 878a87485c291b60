//! Sorting a whole rekordbox XML document.
use vstd::prelude::*;

verus! {

/// The sort value of a BPM text: the value `table` gives it (the bits of its
/// positive number), none when the table has none or the track has no BPM.
pub open spec fn bpm_value(table: Seq<(Seq<char>, u64)>, text: Option<Seq<char>>) -> Option<u64>
    decreases table.len(),
{
    match text {
        None => None,
        Some(t) => if table.len() == 0 {
            None
        } else if table[0].0 == t {
            Some(table[0].1)
        } else {
            bpm_value(table.drop_first(), text)
        },
    }
}

/// The sort data of the scanned collection.
pub open spec fn metas_of_entries(entries: Seq<super::xml::EntryView>, table: Seq<(Seq<char>, u64)>) -> Seq<(Seq<char>, super::order::TrackMeta)> {
    entries.map_values(|e: super::xml::EntryView| (e.id, super::order::TrackMeta { camelot: e.camelot, bpm: bpm_value(table, e.bpm) }))
}

/// The views of a BPM table.
pub open spec fn table_view(table: Seq<(String, u64)>) -> Seq<(Seq<char>, u64)> {
    table.map_values(|e: (String, u64)| (e.0@, e.1))
}

/// The value the table gives a BPM text.
fn bpm_of(table: &[(String, u64)], text: &Option<String>) -> (r: Option<u64>)
    ensures
        r == bpm_value(table_view(table@), match text { Some(t) => Some(t@), None => None }),
{
    match text {
        None => None,
        Some(t) => {
            let ghost tv = table_view(table@);
            let mut i: usize = 0;
            assert(tv.skip(0) =~= tv);
            while i < table.len()
                invariant
                    i <= table@.len(),
                    tv == table_view(table@),
                    text matches Some(x) && x@ == t@,
                    bpm_value(tv, Some(t@)) == bpm_value(tv.skip(i as int), Some(t@)),
                decreases table@.len() - i,
            {
                let ghost rest = tv.skip(i as int);
                assert(rest.drop_first() =~= tv.skip(i + 1));
                assert(rest.len() > 0);
                assert(rest[0] == (table@[i as int].0@, table@[i as int].1));
                if crate::text::str_eq(table[i].0.as_str(), t.as_str()) {
                    return Some(table[i].1);
                }
                i = i + 1;
            }
            assert(tv.skip(i as int) =~= Seq::<(Seq<char>, u64)>::empty());
            None
        },
    }
}

/// What sorting a whole document answers.
pub open spec fn document_outcome(
    data: Seq<u8>,
    table: Seq<(Seq<char>, u64)>,
    playlist: Option<Seq<char>>,
    r: Result<(Vec<u8>, Vec<super::xml::SortedPlaylist>), super::xml::SortError>,
) -> bool {
    let target = super::sort_target(playlist);
    if target matches Some(t) && t.len() == 0 {
        r == Err::<(Vec<u8>, Vec<super::xml::SortedPlaylist>), super::xml::SortError>(super::xml::SortError::EmptyPlaylistPath)
    } else {
        match super::xml::spec_scan(data) {
            Err(e) => r == Err::<(Vec<u8>, Vec<super::xml::SortedPlaylist>), super::xml::SortError>(e),
            Ok((entries, pls)) => exists|c: Seq<(String, super::order::TrackMeta)>|
                super::order::collection_view(c) == metas_of_entries(entries, table)
                && #[trigger] super::sort_outcome(data, pls, c, target, r),
        }
    }
}

/// Sort a whole document: every TrackID-referenced playlist (or only
/// `playlist`, given as `Folder/Name`) gets its refs in Camelot key, then
/// BPM order. `bpms` gives the sort value of each BPM text the collection
/// holds (the bits of its positive number); reading those texts as numbers
/// is the caller's. An empty playlist path is refused before the document
/// is read.
pub fn sort_document(
    data: &[u8],
    bpms: &[(String, u64)],
    playlist: Option<&str>,
) -> (r: Result<(Vec<u8>, Vec<super::xml::SortedPlaylist>), super::xml::SortError>)
    ensures
        document_outcome(data@, table_view(bpms@), match playlist { Some(s) => Some(s@), None => None }, r),
{
    let ghost target = super::sort_target(match playlist { Some(s) => Some(s@), None => None });
    if let Some(s) = playlist {
        let parts = super::split_playlist_path(s);
        if parts.len() == 0 {
            assert(parts@.map_values(|p: String| p@).len() == 0);
            let r = Err(super::xml::SortError::EmptyPlaylistPath);
            assert(document_outcome(data@, table_view(bpms@), Some(s@), r));
            return r;
        }
        assert(parts@.map_values(|p: String| p@).len() > 0);
        assert(target == Some(super::kept_segments(super::split_slash(s@))));
    }
    assert(!(target matches Some(t) && t.len() == 0));
    let scanned = match super::xml::scan(data) {
        Ok(s) => s,
        Err(e) => {
            let r = Err(e);
            assert(document_outcome(data@, table_view(bpms@), match playlist { Some(s) => Some(s@), None => None }, r));
            return r;
        },
    };
    let ghost ev = super::xml::entry_views(scanned.collection@);
    let mut collection: Vec<(String, super::order::TrackMeta)> = Vec::new();
    let mut i: usize = 0;
    while i < scanned.collection.len()
        invariant
            i <= scanned.collection@.len(),
            ev == super::xml::entry_views(scanned.collection@),
            super::order::collection_view(collection@) == metas_of_entries(ev.take(i as int), table_view(bpms@)),
        decreases scanned.collection@.len() - i,
    {
        let e = &scanned.collection[i];
        let bpm = bpm_of(bpms, &e.bpm);
        assert(ev[i as int] == e@);
        let id = e.id.clone();
        let ghost before = collection@;
        collection.push((id, super::order::TrackMeta { camelot: e.camelot, bpm }));
        proof {
            assert(ev.take(i + 1) =~= ev.take(i as int).push(ev[i as int]));
            assert(super::order::collection_view(collection@) =~= super::order::collection_view(before).push((e.id@, super::order::TrackMeta { camelot: e.camelot, bpm })));
        }
        i = i + 1;
        assert(super::order::collection_view(collection@) =~= metas_of_entries(ev.take(i as int), table_view(bpms@)));
    }
    assert(ev.take(i as int) =~= ev);
    let r = super::sort_file(data, scanned.playlists, collection.as_slice(), playlist);
    proof {
        assert(super::xml::spec_scan(data@) == Ok::<(Seq<super::xml::EntryView>, Seq<super::xml::PlaylistView>), super::xml::SortError>((ev, super::xml::playlist_views(scanned.playlists@))));
        assert(super::sort_outcome(data@, super::xml::playlist_views(scanned.playlists@), collection@, target, r));
        assert(exists|c: Seq<(String, super::order::TrackMeta)>|
            super::order::collection_view(c) == metas_of_entries(ev, table_view(bpms@))
            && #[trigger] super::sort_outcome(data@, super::xml::playlist_views(scanned.playlists@), c, target, r));
        let sc = super::xml::spec_scan(data@)->Ok_0;
        assert(sc.0 == ev);
        assert(sc.1 == super::xml::playlist_views(scanned.playlists@));
        assert(super::order::collection_view(collection@) == metas_of_entries(sc.0, table_view(bpms@)));
        assert(super::sort_outcome(data@, sc.1, collection@, target, r));
        assert(document_outcome(data@, table_view(bpms@), match playlist { Some(s) => Some(s@), None => None }, r));
    }
    r
}

}
