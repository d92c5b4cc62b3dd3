//! Paths: how one is cut into segments, and when a segment names an entry.

use vstd::prelude::*;
use vstd::std_specs::iter::IteratorSpec;
use crate::text::{index_of_sep, lemma_index_of_sep, lemma_index_of_sep_unique};

verus! {

/// The separator between the segments of a path.
pub const PATH_SEPARATOR: char = '/';

/// The code of `c`, or of its lower-case form where `c` is one of `A` to `Z`.
pub open spec fn ascii_lower(c: char) -> u32 {
    if 'A' <= c <= 'Z' {
        (c as u32 + 32) as u32
    } else {
        c as u32
    }
}

/// Whether two texts are equal but for the case of their ASCII letters.
pub open spec fn case_insensitive_eq(a: Seq<char>, b: Seq<char>) -> bool {
    &&& a.len() == b.len()
    &&& forall|i: int| 0 <= i < a.len() ==> ascii_lower(a[i]) == ascii_lower(b[i])
}

/// The pieces of `s` between its separators, in order. A text without a
/// separator is one piece; a separator at either end borders an empty piece.
pub open spec fn split_on(s: Seq<char>, sep: char) -> Seq<Seq<char>>
    decreases s.len(),
{
    let first = index_of_sep(s, sep);
    if first >= s.len() {
        seq![s]
    } else {
        seq![s.subrange(0, first as int)] + split_on(
            s.subrange(first as int + 1, s.len() as int),
            sep,
        )
    }
}

/// A path without the one `/` that it may begin with.
pub open spec fn without_root(path: Seq<char>) -> Seq<char> {
    if path.len() > 0 && path[0] == PATH_SEPARATOR {
        path.drop_first()
    } else {
        path
    }
}

/// The segments of a path: what stands between the `/` of the path, once one
/// leading `/` is dropped. There is always at least one segment.
pub open spec fn path_segments(path: Seq<char>) -> Seq<Seq<char>> {
    split_on(without_root(path), PATH_SEPARATOR)
}

/// The texts of a sequence of strings, in the same order.
pub open spec fn texts(strings: Seq<String>) -> Seq<Seq<char>> {
    strings.map_values(|s: String| s@)
}

/// Whether two sequences of segments are equal, segment by segment, but for
/// the case of ASCII letters.
pub open spec fn segments_alike(a: Seq<Seq<char>>, b: Seq<Seq<char>>) -> bool {
    &&& a.len() == b.len()
    &&& forall|i: int| 0 <= i < a.len() ==> case_insensitive_eq(#[trigger] a[i], b[i])
}

/// Whether a character is none of the ASCII letters.
pub open spec fn is_caseless(c: char) -> bool {
    !('A' <= c <= 'Z') && !('a' <= c <= 'z')
}

/// The code of a character with the case of an ASCII letter folded away.
pub fn fold_case(c: char) -> (code: u32)
    ensures
        code == ascii_lower(c),
{
    let code: u32 = c as u32;
    if 65 <= code && code <= 90 {
        code + 32
    } else {
        code
    }
}

/// Compares two texts without regard to the case of their ASCII letters.
pub fn eq_ignore_ascii_case(a: &str, b: &str) -> (same: bool)
    ensures
        same == case_insensitive_eq(a@, b@),
{
    let total: usize = a.unicode_len();
    if b.unicode_len() != total {
        return false;
    }
    let mut left = a.chars();
    let mut right = b.chars();
    let mut i: usize = 0;
    loop
        invariant
            left.obeys_prophetic_iter_laws(),
            right.obeys_prophetic_iter_laws(),
            total == a@.len(),
            total == b@.len(),
            i <= total,
            left.remaining() == a@.skip(i as int),
            right.remaining() == b@.skip(i as int),
            forall|j: int| 0 <= j < i ==> ascii_lower(a@[j]) == ascii_lower(b@[j]),
        decreases total - i,
    {
        let x: Option<char> = left.next();
        let y: Option<char> = right.next();
        match (x, y) {
            (Some(c), Some(d)) => {
                if fold_case(c) != fold_case(d) {
                    return false;
                }
                i = i + 1;
            },
            _ => {
                // The texts are equally long: both have come to their end.
                return true;
            },
        }
    }
}

/// Cuts a text at each separator.
pub fn split(text: &str, sep: char) -> (pieces: Vec<String>)
    ensures
        texts(pieces@) == split_on(text@, sep),
{
    let total: usize = text.unicode_len();
    let mut pieces: Vec<String> = Vec::new();
    let mut rest = text.chars();
    let mut start: usize = 0;
    let mut i: usize = 0;
    assert(text@.skip(0) == text@);
    loop
        invariant
            rest.obeys_prophetic_iter_laws(),
            total == text@.len(),
            start <= i <= total,
            rest.remaining() == text@.skip(i as int),
            forall|j: int| start <= j < i ==> text@[j] != sep,
            split_on(text@, sep) == texts(pieces@) + split_on(text@.skip(start as int), sep),
        decreases total - i,
    {
        let ghost tail = text@.skip(start as int);
        match rest.next() {
            None => {
                proof {
                    lemma_index_of_sep_unique(tail, sep, total - start);
                }
                pieces.push(text.substring_char(start, total).to_owned());
                return pieces;
            },
            Some(c) => {
                if c == sep {
                    proof {
                        lemma_index_of_sep_unique(tail, sep, i - start);
                        assert(tail.subrange(0, i - start) == text@.subrange(
                            start as int,
                            i as int,
                        ));
                        assert(tail.subrange(i - start + 1, tail.len() as int) == text@.skip(
                            i + 1,
                        ));
                    }
                    pieces.push(text.substring_char(start, i).to_owned());
                    start = i + 1;
                }
                i = i + 1;
            },
        }
    }
}

/// Cuts a path into its segments.
pub fn split_path(path: &str) -> (segments: Vec<String>)
    ensures
        texts(segments@) == path_segments(path@),
        segments@.len() > 0,
{
    let total: usize = path.unicode_len();
    let begin: usize = if total > 0 && path.get_char(0) == PATH_SEPARATOR {
        1
    } else {
        0
    };
    assert(path@.subrange(begin as int, total as int) == without_root(path@));
    let segments = split(path.substring_char(begin, total), PATH_SEPARATOR);
    proof {
        lemma_split_on_nonempty(without_root(path@), PATH_SEPARATOR);
    }
    segments
}

/// A text has at least one piece.
pub proof fn lemma_split_on_nonempty(s: Seq<char>, sep: char)
    ensures
        split_on(s, sep).len() > 0,
{
}

/// Equality but for case is symmetric and transitive.
pub proof fn lemma_case_insensitive_eq_equivalence(a: Seq<char>, b: Seq<char>, c: Seq<char>)
    ensures
        case_insensitive_eq(a, a),
        case_insensitive_eq(a, b) ==> case_insensitive_eq(b, a),
        case_insensitive_eq(a, b) && case_insensitive_eq(b, c) ==> case_insensitive_eq(a, c),
{
}

/// Characters that are equal but for case are both a given caseless
/// character, or neither is.
proof fn lemma_caseless_char(c: char, d: char, sep: char)
    requires
        ascii_lower(c) == ascii_lower(d),
        is_caseless(sep),
    ensures
        c == sep <==> d == sep,
{
}

/// Texts that are equal but for case hold a caseless separator at the same
/// places.
proof fn lemma_index_of_sep_alike(a: Seq<char>, b: Seq<char>, sep: char)
    requires
        case_insensitive_eq(a, b),
        is_caseless(sep),
    ensures
        index_of_sep(a, sep) == index_of_sep(b, sep),
{
    lemma_index_of_sep(a, sep);
    let first = index_of_sep(a, sep) as int;
    assert forall|j: int| 0 <= j < a.len() implies (a[j] == sep <==> b[j] == sep) by {
        lemma_caseless_char(a[j], b[j], sep);
    }
    lemma_index_of_sep_unique(b, sep, first);
}

/// Texts that are equal but for case are cut at a caseless separator into
/// pieces that are equal but for case.
pub proof fn lemma_split_on_alike(a: Seq<char>, b: Seq<char>, sep: char)
    requires
        case_insensitive_eq(a, b),
        is_caseless(sep),
    ensures
        segments_alike(split_on(a, sep), split_on(b, sep)),
    decreases a.len(),
{
    lemma_index_of_sep_alike(a, b, sep);
    let first = index_of_sep(a, sep) as int;
    if first < a.len() {
        let a_rest = a.subrange(first + 1, a.len() as int);
        let b_rest = b.subrange(first + 1, b.len() as int);
        assert(case_insensitive_eq(a.subrange(0, first), b.subrange(0, first)));
        assert(case_insensitive_eq(a_rest, b_rest));
        lemma_split_on_alike(a_rest, b_rest, sep);
    }
}

/// Paths that are equal but for case have segments that are equal but for
/// case.
pub proof fn lemma_path_segments_alike(a: Seq<char>, b: Seq<char>)
    requires
        case_insensitive_eq(a, b),
    ensures
        segments_alike(path_segments(a), path_segments(b)),
{
    if a.len() > 0 {
        lemma_caseless_char(a[0], b[0], PATH_SEPARATOR);
    }
    assert(case_insensitive_eq(without_root(a), without_root(b)));
    lemma_split_on_alike(without_root(a), without_root(b), PATH_SEPARATOR);
}

} // verus!
