use baken::export::pdb::page::{header_page, index_page, DataPage, HeaderStyle, PAGE_LEN};
use baken::export::pdb::rows::{
    album, artist, color, history_property, key, named, playlist_entry, playlist_node, TrackRow,
    FILE_TYPE_MP3,
};
use baken::export::pdb::string::{decode, encode};
use baken::export::pdb::rows;
use baken::export::pdb::writer;
use baken::export::pdb::writer::{Export, ExportPlaylist, FixedTables, NUM_TABLES};

fn hex(s: &str) -> Vec<u8> {
    (0..s.len())
        .step_by(2)
        .map(|i| u8::from_str_radix(&s[i..i + 2], 16).unwrap())
        .collect()
}

#[test]
fn short_ascii_matches_fixture_bytes() {
    assert_eq!(encode("1A"), vec![0x07, b'1', b'A']);
    assert_eq!(encode(""), vec![0x03]);
    assert_eq!(encode("Pink"), vec![0x0b, b'P', b'i', b'n', b'k']);
}

#[test]
fn utf16_matches_columns_row() {
    let s = "\u{fffa}GENRE\u{fffb}";
    let enc = encode(s);
    assert_eq!(&enc[..4], &[0x90, 0x12, 0x00, 0x00]);
    assert_eq!(enc.len(), 0x12);
    assert_eq!(decode(&enc, 0).unwrap(), (s.to_string(), 0x12));
}

#[test]
fn round_trip() {
    for s in ["", "a", "Techno", "22. 盾", "Jesse Pinkman's Hydrofluoric Acid / JPHFA"] {
        let enc = encode(s);
        assert_eq!(decode(&enc, 0).unwrap(), (s.to_string(), enc.len()));
    }
}

#[test]
fn long_ascii_strings_take_the_utf16_form() {
    let s = "x".repeat(130);
    let enc = encode(&s);
    assert_eq!(enc[0], 0x90);
    assert_eq!(enc.len(), 4 + 2 * 130);
    assert_eq!(decode(&enc, 0).unwrap(), (s, enc.len()));
}

#[test]
fn decode_refuses_truncated_and_unknown_forms() {
    assert_eq!(decode(&[], 0), None);
    assert_eq!(decode(&[0x0b, b'P'], 0), None);
    assert_eq!(decode(&[0x22, 0x08, 0x00, 0x00, 1, 2, 3, 4], 0), None);
    assert_eq!(decode(&[0x40, 0x06, 0x00, 0x00, b'h', b'i'], 0), Some(("hi".to_string(), 6)));
}

#[test]
fn packed_row_count_matches_rekordbox() {
    let mut pg = DataPage::new(18, 8, 4318, HeaderStyle::Normal);
    for i in 0..284u32 {
        assert!(pg.try_push(&[i.to_le_bytes(), [0; 4], [0; 4]].concat()));
    }
    let b = pg.to_bytes();
    assert_eq!((b[0x18], b[0x19], b[0x1a]), (28, 129, 35));
    assert_eq!(u16::from_le_bytes([b[0x1c], b[0x1d]]), 8);
    assert_eq!(u16::from_le_bytes([b[0x1e], b[0x1f]]), 3408);
    assert_eq!(u16::from_le_bytes([b[0x22], b[0x23]]), 283);
}

#[test]
fn page_fills_then_rejects() {
    let mut pg = DataPage::new(1, 8, 1, HeaderStyle::Normal);
    let mut n = 0;
    while pg.try_push(&[0u8; 12]) {
        n += 1;
    }
    assert_eq!(n, 284);
}

#[test]
fn row_directory_and_flags_follow_the_rows() {
    let mut pg = DataPage::new(3, 1, 7, HeaderStyle::Fixed);
    assert!(pg.is_empty());
    assert!(pg.try_push(&[1, 2, 3]));
    assert!(pg.try_push(&[4, 5, 6, 7, 8]));
    assert_eq!(pg.rows(), 2);
    let b = pg.to_bytes();
    assert_eq!(b.len(), PAGE_LEN);
    // rows padded to four bytes
    assert_eq!(&b[0x28..0x34], &[1, 2, 3, 0, 4, 5, 6, 7, 8, 0, 0, 0]);
    // fixed style: unknown5 = rows, num_rows_large = 0
    assert_eq!(u16::from_le_bytes([b[0x20], b[0x21]]), 2);
    assert_eq!(u16::from_le_bytes([b[0x22], b[0x23]]), 0);
    // flags twice, then offsets from slot 0 backwards
    assert_eq!(&b[PAGE_LEN - 4..], &[3, 0, 3, 0]);
    assert_eq!(&b[PAGE_LEN - 8..PAGE_LEN - 4], &[4, 0, 0, 0]);
    // a row larger than a page never fits
    assert!(!pg.try_push(&vec![0u8; 4096]));
}

#[test]
fn index_and_header_pages() {
    let ip = index_page(5, 2, 9, None);
    assert_eq!(ip.len(), PAGE_LEN);
    assert_eq!(ip[0x1b], 0x64);
    assert_eq!(&ip[0x28..0x2c], &5u32.to_le_bytes());
    assert_eq!(&ip[0x2c..0x30], &0x03FF_FFFFu32.to_le_bytes());
    assert_eq!(&ip[0x3c..0x40], &0x1FFF_FFF8u32.to_le_bytes());
    assert!(ip[PAGE_LEN - 20..].iter().all(|&b| b == 0));
    let hp = header_page(2, 41, 12, &[(0, 21, 1, 2), (1, 22, 3, 3)]);
    assert_eq!(hp.len(), PAGE_LEN);
    assert_eq!(&hp[0x04..0x08], &4096u32.to_le_bytes());
    assert_eq!(&hp[0x1c..0x20], &0u32.to_le_bytes());
    assert_eq!(&hp[0x2c..0x30], &1u32.to_le_bytes());
    assert_eq!(&hp[0x38..0x3c], &3u32.to_le_bytes());
}

#[test]
fn fixed_rows_match_fixture_bytes() {
    assert_eq!(key(1, "1A"), hex("010000000100000007314100")[..11]);
    assert_eq!(color(1, "Pink"), hex("00000000010100000b50696e6b"));
    assert_eq!(named(1, "Techno"), hex("010000000f546563686e6f"));
    let a = artist(1, 2, "tk_elektron");
    assert_eq!(&a[..10], &hex("6000200002000000030a")[..]);
    assert_eq!(a.len(), 32);
    assert_eq!(&album(1, 2, 4, "x")[..22], &hex("80002000000000000400000002000000000000000316")[..]);
    assert_eq!(
        &playlist_node(0, 1, 3, false, "HT-70min")[..20],
        &hex("0000000000000000010000000300000000000000")[..]
    );
    assert_eq!(&rows::column(1, 0x80, "\u{fffa}GENRE\u{fffb}")[..8], &hex("0100800090120000")[..]);
    let h = history_property("2024-11-16", "");
    assert_eq!(h.len(), 40);
    assert_eq!(&h[..31], &hex("80020000000000000000000017323032342d31312d3136191e0b3130303003")[..]);
}

#[test]
fn playlist_entry_row() {
    assert_eq!(playlist_entry(1, 352, 7), hex("010000006001000007000000"));
}

#[test]
fn track_row_layout() {
    let t = TrackRow { id: 352, title: "Unreal".into(), file_type: FILE_TYPE_MP3, ..Default::default() };
    let r = t.encode(0);
    assert_eq!(&r[..4], &[0x24, 0, 0, 0]);
    assert_eq!(u32::from_le_bytes(r[0x48..0x4c].try_into().unwrap()), 352);
    assert_eq!(u16::from_le_bytes(r[0x5a..0x5c].try_into().unwrap()), 1);
    let title_off = u16::from_le_bytes(r[0x5e + 2 * 17..0x60 + 2 * 17].try_into().unwrap()) as usize;
    assert_eq!(decode(&r, title_off).unwrap().0, "Unreal");
}

#[test]
fn track_row_is_padded_to_its_allocation() {
    let t = TrackRow { id: 1, ..Default::default() };
    let r = t.encode(3);
    // position 3 on the page
    assert_eq!(&r[2..4], &(3u16 * 0x20).to_le_bytes());
    // id + 20 at 0x14
    assert_eq!(u32::from_le_bytes(r[0x14..0x18].try_into().unwrap()), 21);
    // 21 strings: 16 empty (1 byte each), 3 x "1" (2 bytes), 2 x "ON"
    // (3 bytes), packed, then padded to 0x88 + sum(align4) + 4
    let packed = 0x88 + 16 + 3 * 2 + 2 * 3;
    assert_eq!(r.len(), 0x88 + 21 * 4 + 4);
    assert!(r[packed..].iter().all(|&b| b == 0));
}

fn fixed_tables() -> FixedTables {
    let keys: Vec<String> = (1..=12)
        .flat_map(|n| [format!("{n}A"), format!("{n}B")])
        .collect();
    FixedTables {
        keys,
        colors: vec![(1, "Pink".into()), (2, "Red".into())],
        columns: vec![(1, 0x80, "\u{fffa}GENRE\u{fffb}".into())],
        category_rows: vec![vec![1, 0, 0, 0, 1, 0, 0, 0]],
        sort_rows: vec![vec![2, 0, 0, 0, 0, 0, 0, 0]],
    }
}

fn empty_export() -> Export {
    Export {
        tracks: Vec::new(),
        artists: Vec::new(),
        albums: Vec::new(),
        genres: Vec::new(),
        labels: Vec::new(),
        playlists: Vec::new(),
        device_name: String::new(),
        export_date: String::new(),
    }
}

fn page(d: &[u8], i: usize) -> &[u8] {
    &d[i * PAGE_LEN..(i + 1) * PAGE_LEN]
}

#[test]
fn header_and_chains_are_consistent() {
    let mut e = empty_export();
    e.export_date = "2026-09-18".into();
    e.device_name = "TEST".into();
    for i in 1..=700u32 {
        e.tracks.push(TrackRow {
            id: i,
            title: format!("Track {i}"),
            file_path: format!("/Contents/A/B/{i}.flac"),
            ..Default::default()
        });
    }
    e.playlists.push(ExportPlaylist {
        id: 1,
        parent: 0,
        sort_order: 0,
        is_folder: false,
        name: "All".into(),
        track_ids: (1..=700).collect(),
    });
    let out = writer::write(&e, &fixed_tables());
    assert_eq!(out.len() % PAGE_LEN, 0);
    let n_pages = out.len() / PAGE_LEN;
    assert_eq!(u32::from_le_bytes(out[0x0c..0x10].try_into().unwrap()) as usize, n_pages);
    let header_seq = u32::from_le_bytes(out[0x14..0x18].try_into().unwrap());
    let mut rows_seen = std::collections::HashMap::new();
    for i in 0..NUM_TABLES as usize {
        let o = 0x1c + 16 * i;
        let w = |k: usize| u32::from_le_bytes(out[o + 4 * k..o + 4 * k + 4].try_into().unwrap()) as usize;
        let (ty, empty, first, last) = (w(0), w(1), w(2), w(3));
        assert_eq!(ty, i);
        assert!(page(&out, empty).iter().all(|&b| b == 0), "empty candidate is a zero page");
        assert_eq!(page(&out, first)[0x1b], 0x64);
        let mut p = first;
        loop {
            let pg = page(&out, p);
            assert_eq!(u32::from_le_bytes(pg[0x04..0x08].try_into().unwrap()) as usize, p);
            assert_eq!(u32::from_le_bytes(pg[0x08..0x0c].try_into().unwrap()) as usize, ty);
            let next = u32::from_le_bytes(pg[0x0c..0x10].try_into().unwrap()) as usize;
            if pg[0x1b] == 0x24 {
                let seq = u32::from_le_bytes(pg[0x10..0x14].try_into().unwrap());
                assert!(seq < header_seq);
                *rows_seen.entry(ty).or_insert(0) += pg[0x18] as usize + 0x100 * (pg[0x19] & 1) as usize;
            }
            if p == last {
                assert_eq!(next, empty);
                break;
            }
            p = next;
        }
    }
    assert_eq!(rows_seen[&0], 700);
    assert_eq!(rows_seen[&8], 700);
    assert_eq!(rows_seen[&5], 24);
    assert_eq!(rows_seen[&19], 1);
}

#[test]
fn an_empty_export_is_header_index_pages_and_fixed_tables() {
    let out = writer::write(&empty_export(), &fixed_tables());
    // header, 20 index pages, data pages of keys, colors, columns,
    // categories, sorts and history, 20 empty candidates
    assert_eq!(out.len() / PAGE_LEN, 1 + 20 + 6 + 20);
    // colors and columns keep their fixed sequence numbers
    let ptr = |ty: usize| {
        let o = 0x1c + 16 * ty;
        u32::from_le_bytes(out[o + 12..o + 16].try_into().unwrap()) as usize
    };
    assert_eq!(u32::from_le_bytes(page(&out, ptr(6))[0x10..0x14].try_into().unwrap()), 2);
    assert_eq!(u32::from_le_bytes(page(&out, ptr(16))[0x10..0x14].try_into().unwrap()), 3);
}
