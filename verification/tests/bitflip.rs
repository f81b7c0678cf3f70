use bitsquat::bitflip::{flip_exhaustive, flip_str};

fn bytes(s: &str) -> Vec<u8> {
    s.as_bytes().to_vec()
}

#[test]
fn empty_name_yields_no_candidates() {
    assert!(flip_exhaustive(&Vec::new()).is_empty());
}

#[test]
fn candidate_count_within_bound() {
    let out = flip_exhaustive(&bytes("ab"));
    assert!(out.len() <= 16);
    // only the two bit-7 flips break validity: 14 candidates remain
    assert_eq!(out.len(), 14);
}

#[test]
fn candidates_differ_in_exactly_one_bit() {
    let name = bytes("ab");
    for c in flip_exhaustive(&name) {
        assert_eq!(c.len(), name.len());
        let mut bits = 0u32;
        for (x, y) in name.iter().zip(c.iter()) {
            bits += (x ^ y).count_ones();
        }
        assert_eq!(bits, 1);
    }
}

#[test]
fn generation_is_deterministic() {
    let name = bytes("left-pad");
    assert_eq!(flip_exhaustive(&name), flip_exhaustive(&name));
}

#[test]
fn left_pad_flipped_at_first_byte_bit_one() {
    let name = bytes("left-pad");
    let flipped = flip_str(&name, 0, 1).expect("an ascii result is valid text");
    assert_eq!(flipped, bytes("neft-pad"));
}

#[test]
fn lowercase_a_flips_to_uppercase() {
    let flipped = flip_str(&bytes("ab"), 0, 5).expect("an ascii result is valid text");
    assert_eq!(flipped, bytes("Ab"));
}

#[test]
fn uppercase_candidate_appears_exactly_once() {
    let out = flip_exhaustive(&bytes("ab"));
    let hits = out.iter().filter(|c| c.as_slice() == b"Ab").count();
    assert_eq!(hits, 1);
}

#[test]
fn grave_candidate_is_kept() {
    // flipping bit 0 of 'a' yields 0x60, which is still valid text
    let out = flip_exhaustive(&bytes("ab"));
    assert!(out.iter().any(|c| c.as_slice() == [0x60u8, 0x62u8]));
}

#[test]
fn invalid_flips_are_discarded() {
    // 'a' with bit 7 set is 0xE1, which would need continuation bytes
    assert!(flip_str(&bytes("ab"), 0, 7).is_none());
    let out = flip_exhaustive(&bytes("ab"));
    assert!(!out.iter().any(|c| c[0] >= 0x80 || c[1] >= 0x80));
}

#[test]
fn multibyte_name_filters_broken_continuations() {
    let name = vec![0xC3u8, 0xA9u8];
    let out = flip_exhaustive(&name);
    assert!(out.len() < 16);
    // flipping bit 6 of the continuation byte yields 0xE9, no longer valid
    assert!(!out.contains(&vec![0xC3u8, 0xE9u8]));
    // flipping bit 0 of the head byte yields 0xC2 0xA9, still valid
    assert!(out.contains(&vec![0xC2u8, 0xA9u8]));
}

#[test]
fn scan_order_is_position_then_bit() {
    let out = flip_exhaustive(&bytes("ab"));
    assert_eq!(out[0], bytes("`b"));
    assert_eq!(out[1], bytes("cb"));
    assert_eq!(out[out.len() - 1], vec![0x61u8, 0x22u8]);
}
