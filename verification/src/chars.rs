//! Character classes used by the normalizer and the pre-tokenizer.
//!
//! Each class has a spec function (the definition) and an executable
//! twin proved equal to it.

use vstd::prelude::*;

verus! {

/// CJK ideograph ranges: each such character is surrounded by spaces
/// during normalization so it forms a word of its own.
pub open spec fn spec_is_cjk(c: char) -> bool {
    let u = c as u32;
    ||| (0x4E00 <= u && u <= 0x9FFF)
    ||| (0x3400 <= u && u <= 0x4DBF)
    ||| (0x20000 <= u && u <= 0x2A6DF)
    ||| (0x2A700 <= u && u <= 0x2B73F)
    ||| (0x2B740 <= u && u <= 0x2B81F)
    ||| (0x2B820 <= u && u <= 0x2CEAF)
    ||| (0xF900 <= u && u <= 0xFAFF)
    ||| (0x2F800 <= u && u <= 0x2FA1F)
}

pub fn is_cjk(c: char) -> (r: bool)
    ensures
        r == spec_is_cjk(c),
{
    let u = c as u32;
    (0x4E00 <= u && u <= 0x9FFF) || (0x3400 <= u && u <= 0x4DBF) || (0x20000 <= u && u
        <= 0x2A6DF) || (0x2A700 <= u && u <= 0x2B73F) || (0x2B740 <= u && u <= 0x2B81F) || (0x2B820
        <= u && u <= 0x2CEAF) || (0xF900 <= u && u <= 0xFAFF) || (0x2F800 <= u && u <= 0x2FA1F)
}

/// Combining diacritical marks, removed when accent stripping is on.
pub open spec fn spec_is_combining_mark(c: char) -> bool {
    0x0300 <= c as u32 && c as u32 <= 0x036F
}

pub fn is_combining_mark(c: char) -> (r: bool)
    ensures
        r == spec_is_combining_mark(c),
{
    let u = c as u32;
    0x0300 <= u && u <= 0x036F
}

/// Whitespace and control characters: runs of these collapse to a single
/// space and are trimmed at both ends of a span.
pub open spec fn spec_is_skip(c: char) -> bool {
    let u = c as u32;
    u < 0x20 || u == 0x7F || c == ' '
}

pub fn is_skip(c: char) -> (r: bool)
    ensures
        r == spec_is_skip(c),
{
    let u = c as u32;
    u < 0x20 || u == 0x7F || c == ' '
}

/// Word characters: ASCII alphanumerics, underscore, and every
/// non-ASCII character. A maximal run of these forms one coarse word;
/// a maximal run of the remaining (punctuation) characters forms one
/// coarse word of its own.
pub open spec fn spec_is_word_char(c: char) -> bool {
    let u = c as u32;
    ||| (0x30 <= u && u <= 0x39)
    ||| (0x41 <= u && u <= 0x5A)
    ||| (0x61 <= u && u <= 0x7A)
    ||| u == 0x5F
    ||| u > 0x7F
}

pub fn is_word_char(c: char) -> (r: bool)
    ensures
        r == spec_is_word_char(c),
{
    let u = c as u32;
    (0x30 <= u && u <= 0x39) || (0x41 <= u && u <= 0x5A) || (0x61 <= u && u <= 0x7A) || u == 0x5F
        || u > 0x7F
}

/// ASCII case folding: the normalizer's lowercasing step.
pub open spec fn spec_lower(c: char) -> char {
    if 0x41 <= c as u32 && c as u32 <= 0x5A {
        ((c as u32 + 0x20) as u8) as char
    } else {
        c
    }
}

pub fn lower(c: char) -> (r: char)
    ensures
        r == spec_lower(c),
{
    let u = c as u32;
    if 0x41 <= u && u <= 0x5A {
        ((u + 0x20) as u8) as char
    } else {
        c
    }
}

} // verus!
