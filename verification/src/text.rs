//! Comparing and trimming spans of the source bytes.

use crate::chars::is_white_space;
use crate::chars::to_ascii_lower;
use crate::scan::is_boundary;
use crate::scan::skip_white_space;
use crate::scan::white_space_end;
use vstd::prelude::*;
use vstd::string::is_ascii_spec_bytes;
use vstd::string::StringSliceAdditionalSpecFns;

verus! {

/// `s` with each ASCII capital letter in lower case.
pub open spec fn lower(s: Seq<u8>) -> Seq<u8> {
    s.map_values(|b: u8| to_ascii_lower(b))
}

/// The empty text has no bytes.
pub proof fn lemma_empty_text()
    ensures
        "".spec_bytes() =~= Seq::<u8>::empty(),
{
    reveal_strlit("");
    is_ascii_spec_bytes("");
}

/// The bytes of `@import`.
pub proof fn lemma_at_import()
    ensures
        "@import".spec_bytes() =~= seq![0x40u8, 0x69, 0x6d, 0x70, 0x6f, 0x72, 0x74],
{
    reveal_strlit("@import");
    is_ascii_spec_bytes("@import");
}

/// Whether `[start, end)` of `text` is `word` but for the case of ASCII
/// letters. `word` is meant to be in lower case.
pub fn eq_ignore_ascii_case(text: &[u8], start: usize, end: usize, word: &[u8]) -> (r: bool)
    requires
        start <= end <= text.len(),
    ensures
        r == (lower(text@.subrange(start as int, end as int)) == word@),
{
    if end - start != word.len() {
        return false;
    }
    let ghost span = lower(text@.subrange(start as int, end as int));
    let mut i: usize = 0;
    while i < word.len()
        invariant
            start <= end <= text.len(),
            end - start == word.len(),
            i <= word.len(),
            span == lower(text@.subrange(start as int, end as int)),
            forall|k: int| 0 <= k < i ==> span[k] == word[k],
        decreases word.len() - i,
    {
        if to_ascii_lower(text[start + i]) != word[i] {
            assert(span[i as int] != word[i as int]);
            return false;
        }
        i += 1;
    }
    assert(span =~= word@);
    true
}

/// Whether `a` and `b` hold the same bytes.
pub fn bytes_eq(a: &[u8], b: &[u8]) -> (r: bool)
    ensures
        r == (a@ == b@),
{
    if a.len() != b.len() {
        return false;
    }
    let mut i: usize = 0;
    while i < a.len()
        invariant
            a.len() == b.len(),
            i <= a.len(),
            forall|k: int| 0 <= k < i ==> a[k] == b[k],
        decreases a.len() - i,
    {
        if a[i] != b[i] {
            return false;
        }
        i += 1;
    }
    assert(a@ =~= b@);
    true
}

/// Where `[start, end)` ends once the white space at its end is taken off.
pub open spec fn trim_end_pos(src: Seq<u8>, start: int, end: int) -> int
    decreases end - start,
{
    if start < end && 0 < end <= src.len() && is_white_space(src[end - 1]) {
        trim_end_pos(src, start, end - 1)
    } else {
        end
    }
}

pub proof fn lemma_trim_end_pos(src: Seq<u8>, start: int, end: int)
    requires
        0 <= start <= end <= src.len(),
        is_boundary(src, start),
        is_boundary(src, end),
    ensures
        start <= trim_end_pos(src, start, end) <= end,
        is_boundary(src, trim_end_pos(src, start, end)),
        forall|i: int|
            trim_end_pos(src, start, end) <= i < end ==> is_white_space(#[trigger] src[i]),
        trim_end_pos(src, start, end) > start ==> !is_white_space(
            src[trim_end_pos(src, start, end) - 1],
        ),
    decreases end - start,
{
    if start < end && is_white_space(src[end - 1]) {
        lemma_trim_end_pos(src, start, end - 1);
    }
}

/// Where `[start, end)` starts once the white space at its start is taken
/// off.
pub open spec fn trim_start_pos(src: Seq<u8>, start: int, end: int) -> int {
    if white_space_end(src, start) < end {
        white_space_end(src, start)
    } else {
        end
    }
}

pub fn trim_end(src: &[u8], start: usize, end: usize) -> (r: usize)
    requires
        start <= end <= src.len(),
    ensures
        r == trim_end_pos(src@, start as int, end as int),
        start <= r <= end,
{
    let mut e: usize = end;
    while start < e && is_white_space(src[e - 1])
        invariant
            start <= e <= end,
            end <= src.len(),
            trim_end_pos(src@, start as int, e as int) == trim_end_pos(
                src@,
                start as int,
                end as int,
            ),
        decreases e - start,
    {
        e -= 1;
    }
    e
}

pub fn trim_start(src: &[u8], start: usize, end: usize) -> (r: usize)
    requires
        start <= end <= src.len(),
    ensures
        r == trim_start_pos(src@, start as int, end as int),
        start <= r <= end,
{
    let p: usize = skip_white_space(src, start);
    if p < end {
        p
    } else {
        end
    }
}

} // verus!
