//! Splitting a text at a separator into a known number of parts.

use vstd::prelude::*;

verus! {

/// The parts that `str::split` cuts `text` into at the separator `sep`, in
/// order.
pub uninterp spec fn split_parts(text: Seq<char>, sep: Seq<char>) -> Seq<Seq<char>>;

/// The characters of each part, in order.
pub open spec fn part_views(parts: Seq<&str>) -> Seq<Seq<char>> {
    Seq::new(parts.len(), |i: int| parts[i]@)
}

/// The first `count` of `parts`, if there are that many.
pub open spec fn first_parts(parts: Seq<Seq<char>>, count: nat) -> Option<Seq<Seq<char>>> {
    if count <= parts.len() {
        Some(parts.take(count as int))
    } else {
        None
    }
}

/// Calls `str::split` of the standard library with a string as the
/// separator and collects what it yields. Nothing is proved of the result:
/// the contract only gives it the name [`split_parts`], which rests on the
/// result being the same whenever text and separator are the same.
#[verifier::external_body]
fn split<'a>(text: &'a str, sep: &str) -> (parts: Vec<&'a str>)
    ensures
        part_views(parts@) == split_parts(text@, sep@),
{
    text.split(sep).collect()
}

/// Keeps the first `count` of `parts`, or nothing if there are fewer.
pub fn take_parts<'a>(parts: Vec<&'a str>, count: usize) -> (res: Option<Vec<&'a str>>)
    ensures
        match res {
            Some(taken) => first_parts(part_views(parts@), count as nat) == Some(part_views(taken@)),
            None => first_parts(part_views(parts@), count as nat) is None,
        },
{
    if count <= parts.len() {
        let mut taken = parts;
        taken.truncate(count);
        assert(part_views(taken@) =~= part_views(parts@).take(count as int));
        Some(taken)
    } else {
        None
    }
}

/// Splits `text` at every `sep` and returns the first `count` parts, or
/// nothing if the text has fewer.
pub fn unpack_split<'a>(text: &'a str, sep: &str, count: usize) -> (res: Option<Vec<&'a str>>)
    ensures
        match res {
            Some(taken) => first_parts(split_parts(text@, sep@), count as nat) == Some(
                part_views(taken@),
            ),
            None => first_parts(split_parts(text@, sep@), count as nat) is None,
        },
{
    take_parts(split(text, sep), count)
}

} // verus!
