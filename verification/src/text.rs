//! Validity of byte sequences as UTF-8 text.
//!
//! A bit flip may turn a well-formed name into bytes that no longer decode
//! as text; such candidates are discarded. The validity rule is the
//! standard UTF-8 well-formedness table: one-byte characters below 0x80,
//! two- to four-byte characters introduced by 0xC2..=0xF4 with the proper
//! continuation bytes, overlong forms, surrogates and values above
//! U+10FFFF excluded.

use vstd::prelude::*;

verus! {

/// `b` is a continuation byte of a multi-byte encoded character.
pub open spec fn is_continuation(b: u8) -> bool {
    0x80 <= b < 0xC0
}

/// Length in bytes of the encoded character introduced by `b`, or 0 when
/// `b` can introduce no character.
pub open spec fn head_len(b: u8) -> int {
    if b < 0x80 {
        1
    } else if 0xC2 <= b < 0xE0 {
        2
    } else if 0xE0 <= b < 0xF0 {
        3
    } else if 0xF0 <= b < 0xF5 {
        4
    } else {
        0
    }
}

/// The bytes of `s` starting at `i` begin with one validly encoded
/// character.
pub open spec fn valid_char_at(s: Seq<u8>, i: int) -> bool
    recommends
        0 <= i < s.len(),
{
    let n = head_len(s[i]);
    &&& n >= 1
    &&& i + n <= s.len()
    &&& (n >= 2 ==> is_continuation(s[i + 1]))
    &&& (n >= 3 ==> is_continuation(s[i + 2]))
    &&& (n == 4 ==> is_continuation(s[i + 3]))
    &&& (s[i] == 0xE0 ==> s[i + 1] >= 0xA0)
    &&& (s[i] == 0xED ==> s[i + 1] < 0xA0)
    &&& (s[i] == 0xF0 ==> s[i + 1] >= 0x90)
    &&& (s[i] == 0xF4 ==> s[i + 1] < 0x90)
}

/// The bytes of `s` from `i` to the end are a sequence of validly encoded
/// characters.
pub open spec fn valid_text_from(s: Seq<u8>, i: int) -> bool
    recommends
        0 <= i <= s.len(),
    decreases s.len() - i,
{
    if i >= s.len() {
        true
    } else if !valid_char_at(s, i) {
        false
    } else {
        valid_text_from(s, i + head_len(s[i]))
    }
}

/// `s` is a valid encoding of text.
pub open spec fn is_valid_text(s: Seq<u8>) -> bool {
    valid_text_from(s, 0)
}

/// Decides whether `bytes` is valid text.
pub fn is_valid_utf8(bytes: &Vec<u8>) -> (r: bool)
    ensures
        r == is_valid_text(bytes@),
{
    let n = bytes.len();
    let mut i: usize = 0;
    while i < n
        invariant
            i <= n,
            n == bytes@.len(),
            is_valid_text(bytes@) == valid_text_from(bytes@, i as int),
        decreases n - i,
    {
        let b0 = bytes[i];
        if b0 < 0x80 {
            i = i + 1;
        } else if 0xC2 <= b0 && b0 < 0xE0 {
            if n - i < 2 || !is_cont_byte(bytes[i + 1]) {
                assert(!valid_char_at(bytes@, i as int));
                return false;
            }
            i = i + 2;
        } else if 0xE0 <= b0 && b0 < 0xF0 {
            if n - i < 3 || !is_cont_byte(bytes[i + 1]) || !is_cont_byte(bytes[i + 2]) {
                assert(!valid_char_at(bytes@, i as int));
                return false;
            }
            let b1 = bytes[i + 1];
            if (b0 == 0xE0 && b1 < 0xA0) || (b0 == 0xED && b1 >= 0xA0) {
                assert(!valid_char_at(bytes@, i as int));
                return false;
            }
            i = i + 3;
        } else if 0xF0 <= b0 && b0 < 0xF5 {
            if n - i < 4 || !is_cont_byte(bytes[i + 1]) || !is_cont_byte(bytes[i + 2])
                || !is_cont_byte(bytes[i + 3]) {
                assert(!valid_char_at(bytes@, i as int));
                return false;
            }
            let b1 = bytes[i + 1];
            if (b0 == 0xF0 && b1 < 0x90) || (b0 == 0xF4 && b1 >= 0x90) {
                assert(!valid_char_at(bytes@, i as int));
                return false;
            }
            i = i + 4;
        } else {
            assert(!valid_char_at(bytes@, i as int));
            return false;
        }
    }
    true
}

/// Decides whether `b` is a continuation byte.
fn is_cont_byte(b: u8) -> (r: bool)
    ensures
        r == is_continuation(b),
{
    0x80 <= b && b < 0xC0
}

} // verus!
