//! Document buffers are `ropey::Rope`s; this is what the library reads of
//! them.

use vstd::prelude::*;

verus! {

#[verifier::external_type_specification]
#[verifier::external_body]
pub struct ExRope(ropey::Rope);

/// The characters a rope holds, in order.
pub uninterp spec fn rope_chars(r: ropey::Rope) -> Seq<char>;

/// The character index at which each line of a rope starts, one entry per
/// line (the text after the last line break is a line too).
pub uninterp spec fn rope_line_starts(r: ropey::Rope) -> Seq<int>;

/// Calls `Rope::len_lines`: one more than the number of line breaks, so at
/// least one. The contract claims that this is the number of line starts
/// and that line starts come in order within the text, as the crate
/// documents lines.
#[verifier::external_body]
pub(crate) fn rope_len_lines(r: &ropey::Rope) -> (n: usize)
    ensures
        n == rope_line_starts(*r).len(),
        n >= 1,
        forall|i: int, j: int|
            0 <= i <= j < n ==> 0 <= #[trigger] rope_line_starts(*r)[i] <= #[trigger] rope_line_starts(*r)[j]
                <= rope_chars(*r).len(),
{
    r.len_lines()
}

/// Calls `Rope::line_to_char`: where a line starts; one past the last line
/// gives the end of the text. Larger indexes panic, so they are excluded.
#[verifier::external_body]
pub(crate) fn rope_line_to_char(r: &ropey::Rope, line: usize) -> (c: usize)
    requires
        line <= rope_line_starts(*r).len(),
    ensures
        c == if line < rope_line_starts(*r).len() {
            rope_line_starts(*r)[line as int]
        } else {
            rope_chars(*r).len() as int
        },
{
    r.line_to_char(line)
}

/// Calls `Rope::slice` and collects its `chars`: the characters of
/// `start..end`. A range past the end panics, so it is excluded.
#[verifier::external_body]
pub(crate) fn rope_slice_chars(r: &ropey::Rope, start: usize, end: usize) -> (v: Vec<char>)
    requires
        start <= end <= rope_chars(*r).len(),
    ensures
        v@ == rope_chars(*r).subrange(start as int, end as int),
{
    r.slice(start..end).chars().collect()
}

} // verus!
