//! `PSSI` (phrase analysis) masking.
//!
//! The local library keeps the section in clear text; on a stick it is
//! XOR-masked. Everything after `len_entries` (offset 0x12 of the section) is
//! XORed with a 19-byte pattern to which `len_entries` is added.
use vstd::prelude::*;
use crate::bytes::be16_at;

verus! {

pub const MASK_START: usize = 0x12;

/// The 19-byte mask pattern.
pub open spec fn base() -> Seq<u8> {
    seq![
        0xCBu8, 0xE1u8, 0xEEu8, 0xFAu8, 0xE5u8, 0xEEu8, 0xADu8, 0xEEu8, 0xE9u8, 0xD2u8,
        0xE9u8, 0xEBu8, 0xE1u8, 0xE9u8, 0xF3u8, 0xE8u8, 0xE9u8, 0xF4u8, 0xE1u8,
    ]
}

/// The mask byte for position `i` after the mask start.
pub open spec fn mask_byte(i: int, len_entries: u16) -> u8 {
    ((base()[i % 19] + len_entries % 256) % 256) as u8
}

/// The section with the mask applied, or unchanged when it is too short to
/// hold an entry.
pub open spec fn spec_toggle(s: Seq<u8>) -> Seq<u8> {
    if s.len() < MASK_START + 2 {
        s
    } else {
        let n = be16_at(s, 0x10);
        Seq::new(s.len(), |i: int| if i < MASK_START { s[i] } else { s[i] ^ mask_byte(i - MASK_START, n) })
    }
}

/// The section reads as clear text: the first entry's mood field is 1, 2 or 3.
pub open spec fn spec_is_plain(s: Seq<u8>) -> bool {
    s.len() >= 0x20 && 1 <= be16_at(s, 0x12) <= 3
}

/// Apply (or remove: the operation is its own inverse) the mask in place.
pub fn toggle_mask(section: &mut [u8])
    ensures
        final(section)@ == spec_toggle(old(section)@),
{
    proof { assert(section@.len() == section.len()); }
    if section.len() < MASK_START + 2 {
        return;
    }
    let table: [u8; 19] = [
        0xCB, 0xE1, 0xEE, 0xFA, 0xE5, 0xEE, 0xAD, 0xEE, 0xE9, 0xD2, 0xE9, 0xEB, 0xE1, 0xE9, 0xF3,
        0xE8, 0xE9, 0xF4, 0xE1,
    ];
    assert(table@ =~= base());
    let len_entries = crate::bytes::get_be16(section, 0x10);
    let add = (len_entries % 256) as u8;
    let mut i: usize = MASK_START;
    while i < section.len()
        invariant
            MASK_START <= i <= section@.len(),
            section@.len() == old(section)@.len(),
            section@.len() == section.len(),
            table@ == base(),
            add as int == len_entries % 256,
            len_entries == be16_at(old(section)@, 0x10),
            forall|j: int| 0 <= j < section@.len() ==> #[trigger] section@[j] == if MASK_START <= j < i {
                old(section)@[j] ^ mask_byte(j - MASK_START, len_entries)
            } else {
                old(section)@[j]
            },
        decreases section@.len() - i,
    {
        let m = table[(i - MASK_START) % 19].wrapping_add(add);
        let b = section[i] ^ m;
        section[i] = b;
        i = i + 1;
    }
    assert(section@ =~= spec_toggle(old(section)@));
}

/// True when the section still reads as clear text: the first entry's mood
/// field is 1, 2 or 3.
pub fn is_plain(section: &[u8]) -> (r: bool)
    ensures
        r == spec_is_plain(section@),
{
    proof { assert(section@.len() == section.len()); }
    if section.len() < 0x20 {
        return false;
    }
    let mood = crate::bytes::get_be16(section, 0x12);
    1 <= mood && mood <= 3
}

/// Masking twice gives the section back.
pub proof fn lemma_toggle_involution(s: Seq<u8>)
    ensures
        spec_toggle(spec_toggle(s)) == s,
{
    if s.len() >= MASK_START + 2 {
        let t = spec_toggle(s);
        assert(t[0x10] == s[0x10] && t[0x11] == s[0x11]);
        assert(be16_at(t, 0x10) == be16_at(s, 0x10));
        let n = be16_at(s, 0x10);
        assert forall|i: int| 0 <= i < s.len() implies #[trigger] spec_toggle(t)[i] == s[i] by {
            if i >= MASK_START {
                let m = mask_byte(i - MASK_START, n);
                let x = s[i];
                assert((x ^ m) ^ m == x) by (bit_vector);
            }
        }
        assert(spec_toggle(t) =~= s);
    }
}

}
