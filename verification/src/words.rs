//! Small functions on integers and on text, of the kind that the programs
//! under evaluation are made of.

use vstd::prelude::*;

verus! {

/// The constant five.
pub fn five() -> (r: i32)
    ensures
        r == 5,
{
    5
}

/// The constant six, by way of an early return.
pub fn six() -> (r: i32)
    ensures
        r == 6,
{
    if true {
        return 6;
    }
    5
}

/// The successor of `x`.
pub fn plus_one(x: i32) -> (r: i32)
    requires
        x < i32::MAX,
    ensures
        r == x + 1,
{
    x + 1
}

/// The byte that separates words.
pub const SPACE: u8 = 32;

/// Where the first word of `text` ends: the offset of its first space, or
/// its length where it holds none. The range from zero to that offset is the
/// first word.
pub fn first_word(text: &[u8]) -> (end: usize)
    ensures
        end <= text@.len(),
        forall|k: int| 0 <= k < end ==> text@[k] != SPACE,
        end < text@.len() ==> text@[end as int] == SPACE,
{
    let mut i: usize = 0;
    while i < text.len()
        invariant
            i <= text@.len(),
            forall|k: int| 0 <= k < i ==> text@[k] != SPACE,
        decreases text@.len() - i,
    {
        if text[i] == SPACE {
            return i;
        }
        i = i + 1;
    }
    i
}

} // verus!
