//! Candidate generation: every name reachable from a given name by
//! flipping exactly one bit of exactly one byte, in a fixed scan order,
//! keeping only candidates that are still valid text.

use vstd::prelude::*;
use crate::text::{is_valid_text, is_valid_utf8};

verus! {

/// The byte mask that inverts bit `shift`.
pub open spec fn flip_mask(shift: int) -> u8
    recommends
        0 <= shift < 8,
{
    1u8 << (shift as u8)
}

/// `s` with bit `shift` of byte `index` inverted.
pub open spec fn flipped(s: Seq<u8>, index: int, shift: int) -> Seq<u8>
    recommends
        0 <= index < s.len(),
        0 <= shift < 8,
{
    s.update(index, s[index] ^ flip_mask(shift))
}

/// The valid candidates of byte position `index`, from bit `shift`
/// upward, in increasing bit order.
pub open spec fn flips_at(s: Seq<u8>, index: int, shift: int) -> Seq<Seq<u8>>
    decreases 8 - shift,
{
    if shift < 0 || shift >= 8 {
        Seq::empty()
    } else {
        let c = flipped(s, index, shift);
        (if is_valid_text(c) {
            seq![c]
        } else {
            Seq::<Seq<u8>>::empty()
        }) + flips_at(s, index, shift + 1)
    }
}

/// The valid candidates of byte positions `index` to the end, positions in
/// increasing order.
pub open spec fn flips_from(s: Seq<u8>, index: int) -> Seq<Seq<u8>>
    decreases s.len() - index,
{
    if index < 0 || index >= s.len() {
        Seq::empty()
    } else {
        flips_at(s, index, 0) + flips_from(s, index + 1)
    }
}

/// Every candidate obtained from `s` by one bit flip that yields valid
/// text: byte positions in increasing order, bits 0 to 7 in increasing
/// order within a position, invalid results discarded, duplicates kept.
pub open spec fn bitflips(s: Seq<u8>) -> Seq<Seq<u8>> {
    flips_from(s, 0)
}

/// XORs byte `character_index` of `input` with `1 << shift` and keeps the
/// result only when it is still valid text.
pub fn flip_str(input: &Vec<u8>, character_index: usize, shift: u8) -> (r: Option<Vec<u8>>)
    requires
        character_index < input.len(),
        shift < 8,
    ensures
        (r is Some) == is_valid_text(flipped(input@, character_index as int, shift as int)),
        r matches Some(v) ==> v@ == flipped(input@, character_index as int, shift as int),
{
    let mut bytes = copy_name(input);
    let mask: u8 = 1u8 << shift;
    let flipped_byte = bytes[character_index] ^ mask;
    bytes.set(character_index, flipped_byte);
    if is_valid_utf8(&bytes) {
        Some(bytes)
    } else {
        None
    }
}

/// A fresh name holding the same bytes.
pub(crate) fn copy_name(name: &Vec<u8>) -> (copy: Vec<u8>)
    ensures
        copy@ == name@,
{
    let mut copy: Vec<u8> = Vec::new();
    let mut j: usize = 0;
    while j < name.len()
        invariant
            j <= name@.len(),
            copy@ == name@.subrange(0, j as int),
        decreases name@.len() - j,
    {
        copy.push(name[j]);
        proof {
            assert(copy@ =~= name@.subrange(0, j + 1 as int));
        }
        j = j + 1;
    }
    proof {
        assert(copy@ =~= name@);
    }
    copy
}

/// Every single-bit flip of `original` that is valid text, in scan order.
pub fn flip_exhaustive(original: &Vec<u8>) -> (flips: Vec<Vec<u8>>)
    ensures
        flips@.map_values(|v: Vec<u8>| v@) == bitflips(original@),
{
    let s = Ghost(original@);
    let mut flips: Vec<Vec<u8>> = Vec::new();
    let mut character: usize = 0;
    while character < original.len()
        invariant
            character <= s@.len(),
            s@ == original@,
            flips@.map_values(|v: Vec<u8>| v@) + flips_from(s@, character as int) == bitflips(
                s@,
            ),
        decreases s@.len() - character,
    {
        let mut shift: u8 = 0;
        proof {
            assert(flips_from(s@, character as int) == flips_at(s@, character as int, 0)
                + flips_from(s@, character as int + 1));
            assert(flips@.map_values(|v: Vec<u8>| v@) + (flips_at(s@, character as int, 0)
                + flips_from(s@, character as int + 1)) =~= (flips@.map_values(|v: Vec<u8>| v@)
                + flips_at(s@, character as int, 0)) + flips_from(s@, character as int + 1));
        }
        while shift < 8
            invariant
                shift <= 8,
                character < s@.len(),
                s@ == original@,
                (flips@.map_values(|v: Vec<u8>| v@) + flips_at(s@, character as int, shift as int))
                    + flips_from(s@, character as int + 1) == bitflips(s@),
            decreases 8 - shift,
        {
            let ghost pre = flips@.map_values(|v: Vec<u8>| v@);
            let ghost c = flipped(s@, character as int, shift as int);
            if let Some(f) = flip_str(original, character, shift) {
                flips.push(f);
                proof {
                    assert(flips@.map_values(|v: Vec<u8>| v@) =~= pre.push(c));
                    assert(flips_at(s@, character as int, shift as int) == seq![c] + flips_at(
                        s@,
                        character as int,
                        shift as int + 1,
                    ));
                    assert((pre.push(c) + flips_at(s@, character as int, shift as int + 1)) =~= (pre
                        + flips_at(s@, character as int, shift as int)));
                }
            } else {
                proof {
                    assert(flips_at(s@, character as int, shift as int) == flips_at(
                        s@,
                        character as int,
                        shift as int + 1,
                    ));
                }
            }
            shift = shift + 1;
        }
        proof {
            assert(flips_at(s@, character as int, 8) =~= Seq::<Seq<u8>>::empty());
            assert((flips@.map_values(|v: Vec<u8>| v@) + flips_at(s@, character as int, 8))
                + flips_from(s@, character as int + 1) =~= flips@.map_values(|v: Vec<u8>| v@)
                + flips_from(s@, character as int + 1));
        }
        character = character + 1;
    }
    proof {
        assert(flips_from(s@, character as int) =~= Seq::<Seq<u8>>::empty());
        assert(flips@.map_values(|v: Vec<u8>| v@) + Seq::<Seq<u8>>::empty() =~= flips@.map_values(
            |v: Vec<u8>| v@,
        ));
    }
    flips
}

proof fn lemma_flips_at_count(s: Seq<u8>, index: int, shift: int)
    requires
        0 <= shift <= 8,
    ensures
        flips_at(s, index, shift).len() <= 8 - shift,
        (forall|b: int| shift <= b < 8 ==> is_valid_text(#[trigger] flipped(s, index, b)))
            ==> flips_at(s, index, shift).len() == 8 - shift,
    decreases 8 - shift,
{
    if shift < 8 {
        lemma_flips_at_count(s, index, shift + 1);
    }
}

proof fn lemma_flips_from_count(s: Seq<u8>, index: int)
    requires
        0 <= index <= s.len(),
    ensures
        flips_from(s, index).len() <= 8 * (s.len() - index),
        (forall|i: int, b: int|
            index <= i < s.len() && 0 <= b < 8 ==> is_valid_text(#[trigger] flipped(s, i, b)))
            ==> flips_from(s, index).len() == 8 * (s.len() - index),
    decreases s.len() - index,
{
    if index < s.len() {
        lemma_flips_at_count(s, index, 0);
        lemma_flips_from_count(s, index + 1);
    }
}

/// A name of `n` bytes yields at most `8 * n` candidates, and exactly
/// `8 * n` when every one of its flips yields valid text.
pub proof fn lemma_generate_count(s: Seq<u8>)
    ensures
        bitflips(s).len() <= 8 * s.len(),
        (forall|i: int, b: int|
            0 <= i < s.len() && 0 <= b < 8 ==> is_valid_text(#[trigger] flipped(s, i, b)))
            ==> bitflips(s).len() == 8 * s.len(),
{
    lemma_flips_from_count(s, 0);
}

/// Bytes `x` and `y` differ by exactly one flipped bit.
pub open spec fn one_bit_diff(x: u8, y: u8) -> bool {
    exists|b: int| 0 <= b < 8 && y == x ^ #[trigger] flip_mask(b)
}

/// `a` and `b` have equal length and differ at exactly one position,
/// where the two bytes differ by exactly one bit.
pub open spec fn hamming_one(a: Seq<u8>, b: Seq<u8>) -> bool {
    &&& a.len() == b.len()
    &&& exists|i: int| #![auto]
        0 <= i < a.len() && a[i] != b[i] && one_bit_diff(a[i], b[i]) && (forall|j: int|
            0 <= j < a.len() && j != i ==> a[j] == b[j])
}

proof fn lemma_flip_changes(x: u8, b: u8)
    requires
        b < 8,
    ensures
        x ^ (1u8 << b) != x,
{
    assert(x ^ (1u8 << b) != x) by (bit_vector)
        requires
            b < 8,
    ;
}

proof fn lemma_flips_at_member(s: Seq<u8>, index: int, shift: int, c: Seq<u8>)
    requires
        flips_at(s, index, shift).contains(c),
    ensures
        is_valid_text(c),
        exists|b: int| shift <= b < 8 && 0 <= b && c == #[trigger] flipped(s, index, b),
    decreases 8 - shift,
{
    let whole = flips_at(s, index, shift);
    let head = if is_valid_text(flipped(s, index, shift)) {
        seq![flipped(s, index, shift)]
    } else {
        Seq::<Seq<u8>>::empty()
    };
    let rest = flips_at(s, index, shift + 1);
    let k = choose|k: int| 0 <= k < whole.len() && whole[k] == c;
    if k < head.len() {
        assert(c == flipped(s, index, shift));
    } else {
        assert(rest[k - head.len()] == c);
        assert(rest.contains(c));
        lemma_flips_at_member(s, index, shift + 1, c);
    }
}

proof fn lemma_flips_from_member(s: Seq<u8>, index: int, c: Seq<u8>)
    requires
        flips_from(s, index).contains(c),
    ensures
        is_valid_text(c),
        exists|i: int, b: int|
            index <= i < s.len() && 0 <= b < 8 && c == #[trigger] flipped(s, i, b),
    decreases s.len() - index,
{
    let whole = flips_from(s, index);
    let head = flips_at(s, index, 0);
    let rest = flips_from(s, index + 1);
    let k = choose|k: int| 0 <= k < whole.len() && whole[k] == c;
    if k < head.len() {
        assert(head.contains(c));
        lemma_flips_at_member(s, index, 0, c);
    } else {
        assert(rest[k - head.len()] == c);
        assert(rest.contains(c));
        lemma_flips_from_member(s, index + 1, c);
    }
}

/// Every candidate of a name is valid text, has the byte length of the
/// name, and differs from it in exactly one bit of one byte.
pub proof fn lemma_candidate_one_bit(s: Seq<u8>, c: Seq<u8>)
    requires
        bitflips(s).contains(c),
    ensures
        c.len() == s.len(),
        is_valid_text(c),
        hamming_one(s, c),
{
    lemma_flips_from_member(s, 0, c);
    let (i, b) = choose|i: int, b: int|
        0 <= i < s.len() && 0 <= b < 8 && c == #[trigger] flipped(s, i, b);
    lemma_flip_changes(s[i], b as u8);
    assert(c[i] == s[i] ^ flip_mask(b));
    assert(one_bit_diff(s[i], c[i]));
    assert(forall|j: int| 0 <= j < s.len() && j != i ==> s[j] == c[j]);
}

/// Candidate generation is a function of the name alone: any two
/// sequences that both satisfy `flip_exhaustive`'s contract for the same
/// name are equal, element for element and in order.
pub proof fn lemma_generate_deterministic(s: Seq<u8>, r1: Seq<Seq<u8>>, r2: Seq<Seq<u8>>)
    requires
        r1 == bitflips(s),
        r2 == bitflips(s),
    ensures
        r1 == r2,
{
}

} // verus!
