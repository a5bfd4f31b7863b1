//! The repertoire of Chinese characters.
use vstd::prelude::*;

verus! {

/// The code points of the accepted unified ideographs, with the ideographic
/// number zero.
pub open spec fn han_code_point(cp: int) -> bool {
    ||| cp == 0x3007
    ||| 0x3400 <= cp <= 0x4DBF
    ||| 0x4E00 <= cp <= 0x9FFF
    ||| 0x20000 <= cp <= 0x2A6DF
    ||| 0x2A700 <= cp <= 0x2EE5F
    ||| 0x30000 <= cp <= 0x3347F
    ||| cp == 0xFA0E
    ||| cp == 0xFA0F
    ||| cp == 0xFA11
    ||| cp == 0xFA13
    ||| cp == 0xFA14
    ||| cp == 0xFA1F
    ||| cp == 0xFA21
    ||| cp == 0xFA23
    ||| cp == 0xFA24
    ||| 0xFA27 <= cp <= 0xFA29
}

/// Whether `c` belongs to the accepted repertoire.
pub open spec fn han(c: char) -> bool {
    han_code_point(c as int)
}

/// Every character of `s` belongs to the repertoire.
pub open spec fn all_han(s: Seq<char>) -> bool {
    forall|i: int| 0 <= i < s.len() ==> han(#[trigger] s[i])
}

/// Returns whether `ch` is a Chinese unified ideograph of the accepted
/// repertoire: the unified ideographs with the allocated extension blocks, and
/// U+3007 IDEOGRAPHIC NUMBER ZERO. Radicals, stroke symbols, U+3006 and the
/// ideographic iteration mark stay outside.
pub fn is_han(ch: char) -> (r: bool)
    ensures
        r == han(ch),
{
    let cp: u32 = ch as u32;
    ch == '\u{3007}' || (0x3400 <= cp && cp <= 0x4DBF) || (0x4E00 <= cp && cp <= 0x9FFF) || (
    0x20000 <= cp && cp <= 0x2A6DF) || (0x2A700 <= cp && cp <= 0x2EE5F) || (0x30000 <= cp && cp
        <= 0x3347F) || cp == 0xFA0E || cp == 0xFA0F || cp == 0xFA11 || cp == 0xFA13 || cp == 0xFA14
        || cp == 0xFA1F || cp == 0xFA21 || cp == 0xFA23 || cp == 0xFA24 || (0xFA27 <= cp && cp
        <= 0xFA29)
}

/// Whether every character of the slice belongs to the repertoire.
pub fn are_all_han(s: &[char]) -> (r: bool)
    ensures
        r == all_han(s@),
{
    let mut i: usize = 0;
    while i < s.len()
        invariant
            i <= s.len(),
            forall|k: int| 0 <= k < i ==> han(#[trigger] s@[k]),
        decreases s.len() - i,
    {
        if !is_han(s[i]) {
            return false;
        }
        i += 1;
    }
    true
}

} // verus!
