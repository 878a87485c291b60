//! Carrying a file's raw ID3v2 tag across a re-mux: the MP3 prefix or the
//! AIFF/WAV `ID3 ` chunk, byte for byte.
use vstd::prelude::*;
use super::tags::{
    read_chunk, read_prefix, restore_chunk, restore_prefix, spec_read_chunk, spec_read_prefix,
    spec_restore_prefix, spliced_chunks, Container, TagsError,
};

verus! {

/// The raw ID3v2 tag of a file with extension `ext` and contents `data`.
pub open spec fn spec_read_id3(ext: Seq<char>, data: Seq<u8>) -> Option<Seq<u8>> {
    match Container::spec_of(ext) {
        Some(Container::Mp3) => spec_read_prefix(data),
        Some(Container::Aiff) => spec_read_chunk(data, true),
        Some(Container::Wav) => spec_read_chunk(data, false),
        _ => None,
    }
}

/// The contents once `tag` replaces the file's ID3v2 tag; other containers
/// are left as they are.
pub open spec fn spec_restore_id3(ext: Seq<char>, data: Seq<u8>, tag: Seq<u8>) -> Result<Seq<u8>, TagsError> {
    match Container::spec_of(ext) {
        Some(Container::Mp3) => Ok(spec_restore_prefix(data, tag)),
        Some(Container::Aiff) => if data.len() < 12 { Err(TagsError::TruncatedHeader) } else { Ok(spliced_chunks(data, tag, true)) },
        Some(Container::Wav) => if data.len() < 12 { Err(TagsError::TruncatedHeader) } else { Ok(spliced_chunks(data, tag, false)) },
        _ => Ok(data),
    }
}

/// The file's raw ID3v2 tag, or None when it has none or the container
/// keeps its tags elsewhere. Pair with [`restore`].
pub fn read(extension: &str, data: &[u8]) -> (tag: Option<Vec<u8>>)
    ensures
        match tag {
            Some(t) => spec_read_id3(extension@, data@) == Some(t@),
            None => spec_read_id3(extension@, data@) is None,
        },
{
    match Container::of(extension) {
        Some(Container::Mp3) => read_prefix(data),
        Some(Container::Aiff) => read_chunk(data, true),
        Some(Container::Wav) => read_chunk(data, false),
        _ => None,
    }
}

/// Replace the file's ID3v2 tag with `tag`; a no-op for the containers
/// [`read`] returns None for, so the two always pair up.
pub fn restore(extension: &str, data: &[u8], tag: &[u8]) -> (out: Result<Vec<u8>, TagsError>)
    ensures
        match out {
            Ok(o) => spec_restore_id3(extension@, data@, tag@) == Ok::<Seq<u8>, TagsError>(o@),
            Err(e) => spec_restore_id3(extension@, data@, tag@) == Err::<Seq<u8>, TagsError>(e),
        },
{
    match Container::of(extension) {
        Some(Container::Mp3) => Ok(restore_prefix(data, tag)),
        Some(Container::Aiff) => restore_chunk(data, tag, true),
        Some(Container::Wav) => restore_chunk(data, tag, false),
        _ => {
            let mut same: Vec<u8> = Vec::new();
            crate::bytes::push_all(&mut same, data);
            assert(same@ =~= data@);
            Ok(same)
        },
    }
}

}
