//! Camelot key + BPM playlist sort inside an exported rekordbox XML.
use vstd::prelude::*;
use crate::text::trim;

pub mod camelot;
pub mod document;
pub mod order;
pub mod xml;

verus! {

/// `s` split at every `/`, as `str::split` does: `n` slashes give `n + 1`
/// segments.
pub open spec fn split_slash(s: Seq<char>) -> Seq<Seq<char>>
    decreases s.len(),
{
    if s.len() == 0 {
        seq![seq![]]
    } else if s.last() == '/' {
        split_slash(s.drop_last()).push(seq![])
    } else {
        let p = split_slash(s.drop_last());
        p.update(p.len() - 1, p.last().push(s.last()))
    }
}

/// The trimmed segments that are not empty, in order.
pub open spec fn kept_segments(parts: Seq<Seq<char>>) -> Seq<Seq<char>>
    decreases parts.len(),
{
    if parts.len() == 0 {
        seq![]
    } else if trim(parts.last()).len() == 0 {
        kept_segments(parts.drop_last())
    } else {
        kept_segments(parts.drop_last()).push(trim(parts.last()))
    }
}

proof fn lemma_split_slash_nonempty(s: Seq<char>)
    ensures
        split_slash(s).len() >= 1,
    decreases s.len(),
{
    if s.len() > 0 {
        lemma_split_slash_nonempty(s.drop_last());
    }
}

/// Split `Folder/Sub/Playlist` into trimmed, non-empty segments.
pub fn split_playlist_path(s: &str) -> (out: Vec<String>)
    ensures
        out@.map_values(|p: String| p@) == kept_segments(split_slash(s@)),
{
    let chars = crate::text::chars_of(s);
    let mut out: Vec<String> = Vec::new();
    let mut start: usize = 0;
    let mut i: usize = 0;
    assert(chars@.take(0) =~= Seq::<char>::empty());
    while i < chars.len()
        invariant
            start <= i <= chars@.len(),
            chars@ == s@,
            split_slash(chars@.take(i as int)) == split_slash(chars@.take(start as int)).drop_last().push(chars@.subrange(start as int, i as int)),
            out@.map_values(|p: String| p@) == kept_segments(split_slash(chars@.take(start as int)).drop_last()),
            split_slash(chars@.take(start as int)).last() == Seq::<char>::empty(),
        decreases chars@.len() - i,
    {
        let ghost pre = chars@.take(i as int);
        assert(chars@.take(i + 1).drop_last() =~= pre);
        assert(chars@.take(i + 1).last() == chars@[i as int]);
        proof { lemma_split_slash_nonempty(pre); }
        if chars[i] == '/' {
            let t = crate::text::trim_chars(chars.as_slice(), start, i);
            let ghost before = out@.map_values(|p: String| p@);
            if t.len() > 0 {
                out.push(crate::text::string_from_chars(t.as_slice()));
            }
            proof {
                let sp = split_slash(chars@.take(start as int));
                let done = sp.drop_last().push(chars@.subrange(start as int, i as int));
                assert(split_slash(chars@.take(i + 1)) == done.push(seq![]));
                assert(done.push(seq![]).drop_last() =~= done);
                assert(done.drop_last() =~= sp.drop_last());
                assert(out@.map_values(|p: String| p@) =~= kept_segments(done));
            }
            start = i + 1;
            i = i + 1;
            assert(chars@.subrange(start as int, i as int) =~= Seq::<char>::empty());
            proof {
                let sp2 = split_slash(chars@.take(start as int));
                assert(sp2.drop_last().push(Seq::<char>::empty()) =~= sp2);
            }
        } else {
            proof {
                let sp = split_slash(chars@.take(start as int));
                let cur = sp.drop_last().push(chars@.subrange(start as int, i as int));
                assert(chars@.subrange(start as int, i + 1) =~= chars@.subrange(start as int, i as int).push(chars@[i as int]));
                assert(split_slash(chars@.take(i + 1)) =~= sp.drop_last().push(chars@.subrange(start as int, i + 1)));
            }
            i = i + 1;
        }
    }
    assert(chars@.take(i as int) =~= s@);
    let t = crate::text::trim_chars(chars.as_slice(), start, i);
    let ghost before = out@.map_values(|p: String| p@);
    if t.len() > 0 {
        out.push(crate::text::string_from_chars(t.as_slice()));
    }
    proof {
        let sp = split_slash(s@);
        let rest = split_slash(chars@.take(start as int)).drop_last();
        assert(sp == rest.push(chars@.subrange(start as int, i as int)));
        assert(sp.drop_last() =~= rest);
        assert(out@.map_values(|p: String| p@) =~= kept_segments(sp));
    }
    out
}


/// The playlist path a sort asks for: `None` for every TrackID playlist,
/// else the segments of `playlist`.
pub open spec fn sort_target(playlist: Option<Seq<char>>) -> Option<Seq<Seq<char>>> {
    match playlist {
        Some(s) => Some(kept_segments(split_slash(s))),
        None => None,
    }
}

/// `sorted` holds, for each selected playlist in order, its path and its
/// refs in sorted order.
pub open spec fn sorts_of(
    selected: Seq<xml::PlaylistView>,
    collection: Seq<(String, order::TrackMeta)>,
    sorted: Seq<xml::SortedPlaylist>,
) -> bool {
    &&& sorted.len() == selected.len()
    &&& forall|i: int| 0 <= i < sorted.len() ==> (#[trigger] sorted[i])@.path == selected[i].path
        && exists|ids: Seq<String>| xml::strings(ids) == selected[i].track_ids
            && order::sorted_ids(ids, collection, sorted[i].track_ids@)
}

/// What sorting answers, given the document, its playlists, the sort
/// metadata and the requested target.
pub open spec fn sort_outcome(
    data: Seq<u8>,
    all: Seq<xml::PlaylistView>,
    collection: Seq<(String, order::TrackMeta)>,
    target: Option<Seq<Seq<char>>>,
    r: Result<(Vec<u8>, Vec<xml::SortedPlaylist>), xml::SortError>,
) -> bool {
    if target matches Some(t) && t.len() == 0 {
        r == Err::<(Vec<u8>, Vec<xml::SortedPlaylist>), xml::SortError>(xml::SortError::EmptyPlaylistPath)
    } else {
        match xml::spec_select(all, target) {
            Err(se) => r is Err && xml::select_error(r->Err_0) == se
                && (r->Err_0 is PlaylistNotFound || r->Err_0 is NotTrackIds),
            Ok(sel) => if sel.len() == 0 {
                r == Err::<(Vec<u8>, Vec<xml::SortedPlaylist>), xml::SortError>(xml::SortError::NothingToSort)
            } else {
                match r {
                    Ok((out, sorted)) => sorts_of(sel, collection, sorted@)
                        && xml::spec_rewrite(data, xml::sorted_views(sorted@)) == Ok::<Seq<u8>, xml::SortError>(out@),
                    Err(e) => exists|sorted: Seq<xml::SortedPlaylist>| #[trigger] sorts_of(sel, collection, sorted)
                        && xml::spec_rewrite(data, xml::sorted_views(sorted)) == Err::<Seq<u8>, xml::SortError>(e),
                }
            },
        }
    }
}

/// Sort every TrackID-referenced playlist of a scanned document (or only
/// `playlist`, given as `Folder/Name`) and rewrite the document with each
/// playlist's refs in sorted order. `playlists` are the document's playlists
/// as the scan found them and `collection` the sort metadata of its tracks.
/// Only the order of `<TRACK Key=…/>` children changes.
pub fn sort_file(
    data: &[u8],
    playlists: Vec<xml::CollectedPlaylist>,
    collection: &[(String, order::TrackMeta)],
    playlist: Option<&str>,
) -> (r: Result<(Vec<u8>, Vec<xml::SortedPlaylist>), xml::SortError>)
    ensures
        sort_outcome(data@, xml::playlist_views(playlists@), collection@,
            sort_target(match playlist { Some(s) => Some(s@), None => None }), r),
{
    let ghost all = xml::playlist_views(playlists@);
    let ghost tgt = sort_target(match playlist { Some(s) => Some(s@), None => None });
    let target: Option<Vec<String>> = match playlist {
        Some(s) => {
            let parts = split_playlist_path(s);
            if parts.len() == 0 {
                return Err(xml::SortError::EmptyPlaylistPath);
            }
            Some(parts)
        },
        None => None,
    };
    proof {
        if target is Some {
            assert(xml::strings(target->0@) =~= target->0@.map_values(|p: String| p@));
        }
    }
    let selected = match &target {
        Some(t) => xml::select_targets(playlists, Some(t.as_slice())),
        None => xml::select_targets(playlists, None),
    };
    let selected = match selected {
        Ok(v) => v,
        Err(e) => {
            return Err(e);
        },
    };
    let ghost sel = xml::playlist_views(selected@);
    assert(xml::spec_select(all, tgt) == Ok::<Seq<xml::PlaylistView>, xml::SelectError>(sel));
    let sorted = match xml::sort_selected(selected, collection) {
        Ok(v) => v,
        Err(e) => {
            return Err(e);
        },
    };
    proof {
        assert forall|i: int| 0 <= i < sorted@.len() implies (#[trigger] sorted@[i])@.path == sel[i].path
            && exists|ids: Seq<String>| xml::strings(ids) == sel[i].track_ids
                && order::sorted_ids(ids, collection@, sorted@[i].track_ids@) by {
        }
    }
    assert(sorts_of(sel, collection@, sorted@));
    match xml::rewrite(data, sorted.as_slice()) {
        Ok(out) => {
            let r = Ok((out, sorted));
            assert(sort_outcome(data@, all, collection@, tgt, r));
            r
        },
        Err(e) => {
            assert(xml::spec_rewrite(data@, xml::sorted_views(sorted@)) == Err::<Seq<u8>, xml::SortError>(e));
            assert(exists|s: Seq<xml::SortedPlaylist>| #[trigger] sorts_of(sel, collection@, s)
                && xml::spec_rewrite(data@, xml::sorted_views(s)) == Err::<Seq<u8>, xml::SortError>(e));
            let r = Err(e);
            assert(sort_outcome(data@, all, collection@, tgt, r));
            r
        },
    }
}

}
