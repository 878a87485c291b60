//! Row encoders for every table of the export database.
use vstd::prelude::*;
use crate::bytes::{flatten, le16, le32, push_all, push_le16, push_le32, push_zeros, zeros};
use super::page::{align4, lemma_align4, spec_align4};
use super::string::{encode, spec_encode};

verus! {

/// `vals` as consecutive little-endian words.
pub open spec fn le32s(vals: Seq<u32>) -> Seq<u8>
    decreases vals.len(),
{
    if vals.len() == 0 { seq![] } else { le32s(vals.drop_last()) + le32(vals.last()) }
}

/// `vals` as consecutive little-endian half-words.
pub open spec fn le16s(vals: Seq<u16>) -> Seq<u8>
    decreases vals.len(),
{
    if vals.len() == 0 { seq![] } else { le16s(vals.drop_last()) + le16(vals.last()) }
}

/// The index field of artist, album and track rows: the row's position on
/// its page, as a `u16`, times 0x20.
pub open spec fn index_shift(pos: int) -> u16 {
    ((pos % 65536) * 32) as u16
}

/// A row padded to a multiple of four bytes plus eight more, the space
/// artists and albums are given.
pub open spec fn plus_8(r: Seq<u8>) -> Seq<u8> {
    r + zeros(spec_align4(r.len() as int) + 8 - r.len())
}

proof fn lemma_le32s_len(vals: Seq<u32>)
    ensures
        le32s(vals).len() == 4 * vals.len(),
    decreases vals.len(),
{
    if vals.len() > 0 {
        lemma_le32s_len(vals.drop_last());
    }
}

proof fn lemma_le16s_len(vals: Seq<u16>)
    ensures
        le16s(vals).len() == 2 * vals.len(),
    decreases vals.len(),
{
    if vals.len() > 0 {
        lemma_le16s_len(vals.drop_last());
    }
}

fn u32s(out: &mut Vec<u8>, vals: &[u32])
    ensures
        final(out)@ == old(out)@ + le32s(vals@),
        final(out)@.len() == old(out)@.len() + 4 * vals@.len(),
{
    proof { lemma_le32s_len(vals@); }
    let mut i: usize = 0;
    while i < vals.len()
        invariant
            i <= vals@.len(),
            out@ == old(out)@ + le32s(vals@.take(i as int)),
        decreases vals@.len() - i,
    {
        push_le32(out, vals[i]);
        proof {
            assert(vals@.take(i + 1).drop_last() =~= vals@.take(i as int));
        }
        i = i + 1;
        assert(out@ =~= old(out)@ + le32s(vals@.take(i as int)));
    }
    assert(vals@.take(i as int) =~= vals@);
}

fn u16s(out: &mut Vec<u8>, vals: &[u16])
    ensures
        final(out)@ == old(out)@ + le16s(vals@),
        final(out)@.len() == old(out)@.len() + 2 * vals@.len(),
{
    proof { lemma_le16s_len(vals@); }
    let mut i: usize = 0;
    while i < vals.len()
        invariant
            i <= vals@.len(),
            out@ == old(out)@ + le16s(vals@.take(i as int)),
        decreases vals@.len() - i,
    {
        push_le16(out, vals[i]);
        proof {
            assert(vals@.take(i + 1).drop_last() =~= vals@.take(i as int));
        }
        i = i + 1;
        assert(out@ =~= old(out)@ + le16s(vals@.take(i as int)));
    }
    assert(vals@.take(i as int) =~= vals@);
}

fn shift_of(position_in_page: usize) -> (v: u16)
    requires
        position_in_page % 65536 < 2048,
    ensures
        v == index_shift(position_in_page as int),
{
    ((position_in_page % 65536) as u16) * 0x20
}

/// Pads `r` to a multiple of four bytes plus eight.
fn pad_plus_8(r: Vec<u8>) -> (out: Vec<u8>)
    requires
        r@.len() + 11 <= usize::MAX,
    ensures
        out@ == plus_8(r@),
{
    let mut r = r;
    let n = align4(r.len()) + 8;
    let k = n - r.len();
    push_zeros(&mut r, k);
    r
}

/// genres (0x01), labels (0x04): `id, name`.
pub fn named(id: u32, name: &str) -> (r: Vec<u8>)
    ensures
        r@ == le32(id) + spec_encode(name@),
{
    let mut r: Vec<u8> = Vec::new();
    push_le32(&mut r, id);
    let e = encode(name);
    push_all(&mut r, e.as_slice());
    r
}

/// The artist row of `id` and `name` at `pos` on its page.
pub open spec fn spec_artist(pos: int, id: u32, name: Seq<char>) -> Seq<u8> {
    plus_8(le16(0x60) + le16(index_shift(pos)) + le32(id) + seq![0x03u8, 0x0au8] + spec_encode(name))
}

/// The album row of `id`, `artist_id` and `name` at `pos` on its page.
pub open spec fn spec_album(pos: int, id: u32, artist_id: u32, name: Seq<char>) -> Seq<u8> {
    plus_8(le16(0x80) + le16(index_shift(pos)) + le32s(seq![0u32, artist_id, id, 0u32])
        + seq![0x03u8, 0x16u8] + spec_encode(name))
}

/// artists (0x02): `0x60, index_shift, id, 0x03, name_offset, name`.
pub fn artist(position_in_page: usize, id: u32, name: &str) -> (r: Vec<u8>)
    requires
        position_in_page % 65536 < 2048,
        spec_encode(name@).len() + 64 <= usize::MAX,
    ensures
        r@ == spec_artist(position_in_page as int, id, name@),
{
    let mut r: Vec<u8> = Vec::new();
    push_le16(&mut r, 0x60);
    push_le16(&mut r, shift_of(position_in_page));
    push_le32(&mut r, id);
    r.push(0x03);
    r.push(0x0a);
    let e = encode(name);
    push_all(&mut r, e.as_slice());
    assert(r@.len() == 10 + e@.len());
    assert(r@ =~= le16(0x60) + le16(index_shift(position_in_page as int)) + le32(id)
        + seq![0x03u8, 0x0au8] + spec_encode(name@));
    pad_plus_8(r)
}

/// albums (0x03): `0x80, index_shift, 0, artist_id, id, 0, 0x03, name_offset, name`.
pub fn album(position_in_page: usize, id: u32, artist_id: u32, name: &str) -> (r: Vec<u8>)
    requires
        position_in_page % 65536 < 2048,
        spec_encode(name@).len() + 64 <= usize::MAX,
    ensures
        r@ == spec_album(position_in_page as int, id, artist_id, name@),
{
    let mut r: Vec<u8> = Vec::new();
    push_le16(&mut r, 0x80);
    push_le16(&mut r, shift_of(position_in_page));
    let words: [u32; 4] = [0, artist_id, id, 0];
    u32s(&mut r, &words);
    r.push(0x03);
    r.push(0x16);
    let e = encode(name);
    push_all(&mut r, e.as_slice());
    assert(words@ =~= seq![0u32, artist_id, id, 0u32]);
    assert(r@ =~= le16(0x80) + le16(index_shift(position_in_page as int))
        + le32s(seq![0u32, artist_id, id, 0u32]) + seq![0x03u8, 0x16u8] + spec_encode(name@));
    pad_plus_8(r)
}

/// keys (0x05): `id, id, name`.
pub fn key(id: u32, name: &str) -> (r: Vec<u8>)
    ensures
        r@ == le32(id) + le32(id) + spec_encode(name@),
{
    let mut r: Vec<u8> = Vec::new();
    push_le32(&mut r, id);
    push_le32(&mut r, id);
    let e = encode(name);
    push_all(&mut r, e.as_slice());
    r
}

/// colors (0x06): `0u32, id u8, id u16, 0u8, name`.
pub fn color(id: u8, name: &str) -> (r: Vec<u8>)
    ensures
        r@ == seq![0u8, 0u8, 0u8, 0u8, id, id, 0u8, 0u8] + spec_encode(name@),
{
    let mut r: Vec<u8> = vec![0, 0, 0, 0, id, id, 0, 0];
    let e = encode(name);
    push_all(&mut r, e.as_slice());
    r
}

/// playlist_tree (0x07): `parent, 0, sort_order, id, is_folder, name`.
pub fn playlist_node(parent: u32, sort_order: u32, id: u32, is_folder: bool, name: &str) -> (r: Vec<u8>)
    ensures
        r@ == le32s(seq![parent, 0u32, sort_order, id, if is_folder { 1u32 } else { 0u32 }])
            + spec_encode(name@),
{
    let mut r: Vec<u8> = Vec::new();
    let words: [u32; 5] = [parent, 0, sort_order, id, if is_folder { 1 } else { 0 }];
    u32s(&mut r, &words);
    assert(words@ =~= seq![parent, 0u32, sort_order, id, if is_folder { 1u32 } else { 0u32 }]);
    let e = encode(name);
    push_all(&mut r, e.as_slice());
    r
}

/// playlist_entries (0x08): `entry_index, track_id, playlist_id`.
pub fn playlist_entry(entry_index: u32, track_id: u32, playlist_id: u32) -> (r: Vec<u8>)
    ensures
        r@ == le32(entry_index) + le32(track_id) + le32(playlist_id),
{
    let mut r: Vec<u8> = Vec::new();
    push_le32(&mut r, entry_index);
    push_le32(&mut r, track_id);
    push_le32(&mut r, playlist_id);
    r
}

/// columns (0x10): `id u16, code u16, name`.
pub fn column(id: u16, code: u16, name: &str) -> (r: Vec<u8>)
    ensures
        r@ == le16(id) + le16(code) + spec_encode(name@),
{
    let mut r: Vec<u8> = Vec::new();
    push_le16(&mut r, id);
    push_le16(&mut r, code);
    let e = encode(name);
    push_all(&mut r, e.as_slice());
    r
}

/// The unpadded history property row.
pub open spec fn history_body(export_date: Seq<char>, device_name: Seq<char>) -> Seq<u8> {
    le32s(seq![0x0280u32, 0u32, 0u32]) + spec_encode(export_date) + seq![0x19u8, 0x1eu8]
        + spec_encode(seq!['1', '0', '0', '0']) + spec_encode(device_name)
}

/// history (0x13): the single "property" row of a fresh export:
/// `0x0280, 0, 0, export_date, 0x19, 0x1e, "1000", device_name`,
/// zero-padded to 40 bytes.
pub fn history_property(export_date: &str, device_name: &str) -> (r: Vec<u8>)
    ensures
        r@ == (if history_body(export_date@, device_name@).len() < 40 {
            history_body(export_date@, device_name@)
                + zeros(40 - history_body(export_date@, device_name@).len())
        } else {
            history_body(export_date@, device_name@)
        }),
{
    let mut r: Vec<u8> = Vec::new();
    let words: [u32; 3] = [0x0280, 0, 0];
    u32s(&mut r, &words);
    assert(words@ =~= seq![0x0280u32, 0u32, 0u32]);
    let e = encode(export_date);
    push_all(&mut r, e.as_slice());
    r.push(0x19);
    r.push(0x1e);
    let thousand = encode("1000");
    proof {
        reveal_strlit("1000");
        assert("1000"@ =~= seq!['1', '0', '0', '0']);
    }
    push_all(&mut r, thousand.as_slice());
    let d = encode(device_name);
    push_all(&mut r, d.as_slice());
    assert(r@ =~= history_body(export_date@, device_name@));
    if r.len() < 40 {
        let k = 40 - r.len();
        push_zeros(&mut r, k);
    }
    r
}

/// Everything a `tracks` (0x00) row needs.
#[derive(Debug, Clone, Default)]
pub struct TrackRow {
    pub id: u32,
    pub sample_rate: u32,
    pub composer_id: u32,
    pub file_size: u32,
    pub artwork_id: u32,
    pub key_id: u32,
    pub original_artist_id: u32,
    pub label_id: u32,
    pub remixer_id: u32,
    pub bitrate: u32,
    pub track_number: u32,
    /// BPM x 100.
    pub tempo: u32,
    pub genre_id: u32,
    pub album_id: u32,
    pub artist_id: u32,
    pub disc_number: u16,
    pub play_count: u16,
    pub year: u16,
    pub sample_depth: u16,
    pub duration_seconds: u16,
    pub color_id: u8,
    /// 0..=5 stars.
    pub rating: u8,
    pub file_type: u16,
    pub date_added: String,
    pub release_date: String,
    pub mix_name: String,
    pub analyze_path: String,
    pub analyze_date: String,
    pub comment: String,
    pub title: String,
    pub filename: String,
    pub file_path: String,
}

pub const FILE_TYPE_MP3: u16 = 1;
pub const FILE_TYPE_M4A: u16 = 4;
pub const FILE_TYPE_FLAC: u16 = 5;
pub const FILE_TYPE_ALAC: u16 = 6;
pub const FILE_TYPE_WAV: u16 = 11;
pub const FILE_TYPE_AIFF: u16 = 12;

/// Sum of the lengths of `parts`, each taken as a `u16` the way the string
/// offsets of a track row add them up.
pub open spec fn wrapped_total(parts: Seq<Seq<u8>>) -> int
    decreases parts.len(),
{
    if parts.len() == 0 { 0 } else { wrapped_total(parts.drop_last()) + parts.last().len() % 65536 }
}

/// Sum of the lengths of `parts`, each rounded up to a multiple of four.
pub open spec fn padded_total(parts: Seq<Seq<u8>>) -> int
    decreases parts.len(),
{
    if parts.len() == 0 { 0 } else { padded_total(parts.drop_last()) + spec_align4(parts.last().len() as int) }
}

/// Offset of every string of a track row, counted from the row's start.
pub open spec fn string_offsets(parts: Seq<Seq<u8>>) -> Seq<u16> {
    Seq::new(parts.len(), |j: int| (0x88 + wrapped_total(parts.take(j))) as u16)
}

impl TrackRow {
    /// The 21 strings of a track row, in order.
    pub open spec fn strings(&self) -> Seq<Seq<char>> {
        seq![
            Seq::<char>::empty(), Seq::<char>::empty(), seq!['1'], seq!['1'], seq!['1'],
            Seq::<char>::empty(), seq!['O', 'N'], seq!['O', 'N'], Seq::<char>::empty(),
            Seq::<char>::empty(), self.date_added@, self.release_date@, self.mix_name@,
            Seq::<char>::empty(), self.analyze_path@, self.analyze_date@, self.comment@,
            self.title@, Seq::<char>::empty(), self.filename@, self.file_path@,
        ]
    }

    /// The encoded strings of a track row.
    pub open spec fn encoded(&self) -> Seq<Seq<u8>> {
        self.strings().map_values(|s: Seq<char>| spec_encode(s))
    }

    /// The fixed 0x5e bytes at the start of a track row.
    pub open spec fn head(&self, pos: int) -> Seq<u8> {
        le16(0x24) + le16(index_shift(pos)) + le32s(seq![
            0xC0700u32, self.sample_rate, self.composer_id, self.file_size,
            (self.id + 20) as u32, 3933607398u32, self.artwork_id, self.key_id,
            self.original_artist_id, self.label_id, self.remixer_id, self.bitrate,
            self.track_number, self.tempo, self.genre_id, self.album_id, self.artist_id, self.id,
        ]) + le16s(seq![
            self.disc_number, self.play_count, self.year, self.sample_depth,
            self.duration_seconds, 41u16,
        ]) + seq![self.color_id, self.rating] + le16(self.file_type) + le16(3)
    }

    /// The whole row: head, string offsets, strings packed one after the
    /// other, then zeros up to `0x88 + sum(align4(string)) + 4` bytes.
    pub open spec fn spec_row(&self, pos: int) -> Seq<u8> {
        let enc = self.encoded();
        let body = self.head(pos) + le16s(string_offsets(enc)) + flatten(enc);
        body + zeros(0x88 + padded_total(enc) + 4 - body.len())
    }

    /// The `tracks` row of this track at `position_in_page`.
    pub fn encode(&self, position_in_page: usize) -> (r: Vec<u8>)
        requires
            self.id + 20 <= u32::MAX,
            position_in_page % 65536 < 2048,
            0x88 + wrapped_total(self.encoded()) <= 0xffff,
            0x88 + padded_total(self.encoded()) + 4 <= usize::MAX,
        ensures
            r@ == self.spec_row(position_in_page as int),
    {
        let mut r: Vec<u8> = Vec::new();
        push_le16(&mut r, 0x24);
        push_le16(&mut r, shift_of(position_in_page));
        let words: [u32; 18] = [
            0xC0700, self.sample_rate, self.composer_id, self.file_size, self.id + 20, 3933607398,
            self.artwork_id, self.key_id, self.original_artist_id, self.label_id, self.remixer_id,
            self.bitrate, self.track_number, self.tempo, self.genre_id, self.album_id,
            self.artist_id, self.id,
        ];
        u32s(&mut r, &words);
        let halves: [u16; 6] = [
            self.disc_number, self.play_count, self.year, self.sample_depth,
            self.duration_seconds, 41,
        ];
        u16s(&mut r, &halves);
        r.push(self.color_id);
        r.push(self.rating);
        push_le16(&mut r, self.file_type);
        push_le16(&mut r, 3);
        proof {
            assert(words@ =~= seq![
                0xC0700u32, self.sample_rate, self.composer_id, self.file_size,
                (self.id + 20) as u32, 3933607398u32, self.artwork_id, self.key_id,
                self.original_artist_id, self.label_id, self.remixer_id, self.bitrate,
                self.track_number, self.tempo, self.genre_id, self.album_id, self.artist_id, self.id,
            ]);
            assert(halves@ =~= seq![
                self.disc_number, self.play_count, self.year, self.sample_depth,
                self.duration_seconds, 41u16,
            ]);
            assert(r@ =~= self.head(position_in_page as int));
        }
        let ghost head = r@;

        let enc = self.encode_strings();
        let ghost e = self.encoded();
        let mut off: u16 = 0x88;
        let mut i: usize = 0;
        while i < enc.len()
            invariant
                enc@.len() == 21,
                e == crate::bytes::views(enc@),
                e.len() == 21,
                0x88 + wrapped_total(e) <= 0xffff,
                i <= 21,
                off as int == 0x88 + wrapped_total(e.take(i as int)),
                r@ == head + le16s(string_offsets(e).take(i as int)),
            decreases 21 - i,
        {
            proof {
                lemma_wrapped_total_prefix(e, i as int + 1);
                assert(e.take(i + 1).drop_last() =~= e.take(i as int));
                assert(string_offsets(e).take(i + 1).drop_last() =~= string_offsets(e).take(i as int));
            }
            push_le16(&mut r, off);
            off = off + (enc[i].len() % 65536) as u16;
            i = i + 1;
        }
        assert(string_offsets(e).take(21) =~= string_offsets(e));
        let ghost with_offsets = r@;

        let mut padded: usize = 0;
        let mut j: usize = 0;
        while j < enc.len()
            invariant
                enc@.len() == 21,
                e == crate::bytes::views(enc@),
                e.len() == 21,
                0x88 + padded_total(e) + 4 <= usize::MAX,
                j <= 21,
                padded as int == padded_total(e.take(j as int)),
                r@ == with_offsets + flatten(e.take(j as int)),
                flatten(e.take(j as int)).len() <= padded_total(e.take(j as int)),
            decreases 21 - j,
        {
            proof {
                lemma_padded_total_prefix(e, j as int + 1);
                assert(e.take(j + 1).drop_last() =~= e.take(j as int));
                lemma_align4(e[j as int].len() as int);
            }
            push_all(&mut r, enc[j].as_slice());
            padded = padded + align4(enc[j].len());
            j = j + 1;
        }
        assert(e.take(21) =~= e);
        proof { lemma_le16s_len(string_offsets(e)); }
        let alloc = 0x88 + padded + 4;
        let k = alloc - r.len();
        push_zeros(&mut r, k);
        r
    }

    /// The 21 strings of the row, encoded.
    fn encode_strings(&self) -> (enc: Vec<Vec<u8>>)
        ensures
            crate::bytes::views(enc@) == self.encoded(),
            enc@.len() == 21,
    {
        let mut enc: Vec<Vec<u8>> = Vec::new();
        enc.push(encode(""));
        enc.push(encode(""));
        enc.push(encode("1"));
        enc.push(encode("1"));
        enc.push(encode("1"));
        enc.push(encode(""));
        enc.push(encode("ON"));
        enc.push(encode("ON"));
        enc.push(encode(""));
        enc.push(encode(""));
        enc.push(encode(self.date_added.as_str()));
        enc.push(encode(self.release_date.as_str()));
        enc.push(encode(self.mix_name.as_str()));
        enc.push(encode(""));
        enc.push(encode(self.analyze_path.as_str()));
        enc.push(encode(self.analyze_date.as_str()));
        enc.push(encode(self.comment.as_str()));
        enc.push(encode(self.title.as_str()));
        enc.push(encode(""));
        enc.push(encode(self.filename.as_str()));
        enc.push(encode(self.file_path.as_str()));
        proof {
            reveal_strlit("");
            reveal_strlit("1");
            reveal_strlit("ON");
            assert(""@ =~= Seq::<char>::empty());
            assert("1"@ =~= seq!['1']);
            assert("ON"@ =~= seq!['O', 'N']);
            assert(crate::bytes::views(enc@) =~= self.encoded());
        }
        enc
    }
}

proof fn lemma_wrapped_total_prefix(parts: Seq<Seq<u8>>, k: int)
    requires
        0 <= k <= parts.len(),
    ensures
        wrapped_total(parts.take(k)) <= wrapped_total(parts),
    decreases parts.len() - k,
{
    if k < parts.len() {
        assert(parts.take(k + 1).drop_last() =~= parts.take(k));
        lemma_wrapped_total_prefix(parts, k + 1);
    } else {
        assert(parts.take(k) =~= parts);
    }
}

proof fn lemma_padded_total_prefix(parts: Seq<Seq<u8>>, k: int)
    requires
        0 <= k <= parts.len(),
    ensures
        padded_total(parts.take(k)) <= padded_total(parts),
    decreases parts.len() - k,
{
    if k < parts.len() {
        assert(parts.take(k + 1).drop_last() =~= parts.take(k));
        lemma_align4(parts[k].len() as int);
        lemma_padded_total_prefix(parts, k + 1);
    } else {
        assert(parts.take(k) =~= parts);
    }
}

}
