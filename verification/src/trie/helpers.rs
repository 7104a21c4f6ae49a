use vstd::prelude::*;

verus! {

/// Maps a character to a child-array index: characters with a code below
/// 257 map to that code, all others have no index.
pub fn char_to_usize(c: char) -> (r: Option<usize>)
    ensures
        (c as u32) < 257 ==> r == Some((c as u32) as usize),
        (c as u32) >= 257 ==> r is None,
{
    let code: u32 = c as u32;
    if code < 257 {
        Some(code as usize)
    } else {
        Option::None
    }
}

} // verus!
