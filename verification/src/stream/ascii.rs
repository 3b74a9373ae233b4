//! Comparing texts without regard to case.
use vstd::prelude::*;

verus! {

/// A character with an ASCII capital letter made small.
pub open spec fn lowered_char(c: char) -> char {
    if 'A' <= c && c <= 'Z' {
        ((c as u8) + 32) as u8 as char
    } else {
        c
    }
}

/// A text with its ASCII capital letters made small.
pub open spec fn lowered(text: Seq<char>) -> Seq<char> {
    text.map_values(|c: char| lowered_char(c))
}

/// `str::eq_ignore_ascii_case`: whether two texts are equal once the ASCII capital
/// letters of both are made small.
pub assume_specification[ str::eq_ignore_ascii_case ](a: &str, b: &str) -> (r: bool)
    ensures
        r == (lowered(a@) == lowered(b@)),
;

} // verus!
