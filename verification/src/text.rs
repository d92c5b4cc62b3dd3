//! The text of identifiers: how their bytes are decoded, which texts mark the
//! entries for a directory itself and for its parent, and how a version suffix
//! is dropped.

use vstd::prelude::*;
use vstd::std_specs::iter::IteratorSpec;
use vstd::utf8::{decode_utf8, valid_utf8};

verus! {

/// The separator between a file identifier and its version number.
pub const VERSION_SEPARATOR: char = ';';

/// The text that lossy decoding gives for bytes that are not valid UTF-8:
/// every invalid sequence replaced by U+FFFD.
pub uninterp spec fn lossy_text(bytes: Seq<u8>) -> Seq<char>;

/// The text of an identifier: its characters where the bytes are valid UTF-8,
/// and the lossy text otherwise.
pub open spec fn decoded_text(bytes: Seq<u8>) -> Seq<char> {
    if valid_utf8(bytes) {
        decode_utf8(bytes)
    } else {
        lossy_text(bytes)
    }
}

/// Whether `text` is one of the two markers, a single NUL for the directory
/// itself or a single U+0001 for its parent.
pub open spec fn is_marker(text: Seq<char>) -> bool {
    text.len() == 1 && (text[0] == '\u{0}' || text[0] == '\u{1}')
}

/// Index of the first `sep` in `s`, or the length of `s` where it holds none.
pub open spec fn index_of_sep(s: Seq<char>, sep: char) -> nat
    decreases s.len(),
{
    if s.len() == 0 || s[0] == sep {
        0
    } else {
        1 + index_of_sep(s.drop_first(), sep)
    }
}

/// The part of `s` before its first `sep`; all of `s` where it holds none.
pub open spec fn before_sep(s: Seq<char>, sep: char) -> Seq<char> {
    s.subrange(0, index_of_sep(s, sep) as int)
}

/// Decodes bytes with `String::from_utf8_lossy`, which never fails.
///
/// Trusted: valid UTF-8 comes back as the characters it encodes; for any other
/// input the result is only named, as [`lossy_text`] of the bytes.
#[verifier::external_body]
pub(crate) fn decode_lossy(bytes: &[u8]) -> (text: String)
    ensures
        text@ == (if valid_utf8(bytes@) {
            decode_utf8(bytes@)
        } else {
            lossy_text(bytes@)
        }),
{
    String::from_utf8_lossy(bytes).into_owned()
}

/// Finds the first `sep` in `text`, counted in characters.
pub fn find_sep(text: &str, sep: char) -> (index: usize)
    ensures
        index == index_of_sep(text@, sep),
{
    let total: usize = text.unicode_len();
    let mut rest = text.chars();
    let mut index: usize = 0;
    loop
        invariant
            rest.obeys_prophetic_iter_laws(),
            total == text@.len(),
            index <= total,
            rest.remaining() == text@.skip(index as int),
            forall|j: int| 0 <= j < index ==> text@[j] != sep,
        decreases total - index,
    {
        match rest.next() {
            None => {
                proof {
                    lemma_index_of_sep_unique(text@, sep, index as int);
                }
                return index;
            },
            Some(c) => {
                if c == sep {
                    proof {
                        lemma_index_of_sep_unique(text@, sep, index as int);
                    }
                    return index;
                }
                index = index + 1;
            },
        }
    }
}

/// Tells whether `text` is the marker of a directory itself or of its parent.
pub fn is_special(text: &str) -> (special: bool)
    ensures
        special == is_marker(text@),
{
    if text.unicode_len() != 1 {
        false
    } else {
        let c: char = text.get_char(0);
        c == '\u{0}' || c == '\u{1}'
    }
}

/// Drops the version suffix of an identifier: keeps what stands before the
/// first `;`.
pub fn strip_version(text: &str) -> (name: String)
    ensures
        name@ == before_sep(text@, VERSION_SEPARATOR),
{
    let end: usize = find_sep(text, VERSION_SEPARATOR);
    proof {
        lemma_index_of_sep(text@, VERSION_SEPARATOR);
    }
    text.substring_char(0, end).to_owned()
}

/// `index_of_sep` lies within `s`, no earlier character is the separator, and
/// the character there is the separator unless the end was reached.
pub proof fn lemma_index_of_sep(s: Seq<char>, sep: char)
    ensures
        index_of_sep(s, sep) <= s.len(),
        forall|j: int| 0 <= j < index_of_sep(s, sep) ==> s[j] != sep,
        index_of_sep(s, sep) < s.len() ==> s[index_of_sep(s, sep) as int] == sep,
    decreases s.len(),
{
    if s.len() == 0 || s[0] == sep {
    } else {
        let rest = s.drop_first();
        lemma_index_of_sep(rest, sep);
        assert forall|j: int| 0 <= j < index_of_sep(s, sep) implies s[j] != sep by {
            if j > 0 {
                assert(s[j] == rest[j - 1]);
            }
        }
    }
}

/// An index with no separator before it, which is the end of `s` or holds the
/// separator, is `index_of_sep`.
pub proof fn lemma_index_of_sep_unique(s: Seq<char>, sep: char, k: int)
    requires
        0 <= k <= s.len(),
        forall|j: int| 0 <= j < k ==> s[j] != sep,
        k < s.len() ==> s[k] == sep,
    ensures
        index_of_sep(s, sep) == k,
{
    lemma_index_of_sep(s, sep);
}

/// A text that holds the separator is cut just before the first one, and what
/// is kept holds none; a text without the separator is kept whole.
pub proof fn lemma_before_sep(s: Seq<char>, sep: char)
    ensures
        before_sep(s, sep).len() <= s.len(),
        before_sep(s, sep) == s.subrange(0, before_sep(s, sep).len() as int),
        !before_sep(s, sep).contains(sep),
        s.contains(sep) ==> before_sep(s, sep).len() < s.len() && s[before_sep(
            s,
            sep,
        ).len() as int] == sep,
        !s.contains(sep) ==> before_sep(s, sep) == s,
{
    lemma_index_of_sep(s, sep);
}

/// Whether every byte is an ASCII character.
pub open spec fn is_ascii_bytes(bytes: Seq<u8>) -> bool {
    forall|i: int| 0 <= i < bytes.len() ==> bytes[i] <= 0x7f
}

/// The characters that ASCII bytes stand for, one for one.
pub open spec fn ascii_chars(bytes: Seq<u8>) -> Seq<char> {
    Seq::new(bytes.len(), |i: int| bytes[i] as char)
}

/// An identifier of ASCII bytes decodes byte for byte.
pub proof fn lemma_ascii_text(bytes: Seq<u8>)
    requires
        is_ascii_bytes(bytes),
    ensures
        valid_utf8(bytes),
        decoded_text(bytes) == ascii_chars(bytes),
    decreases bytes.len(),
{
    if bytes.len() > 0 {
        let first = bytes[0];
        let rest = bytes.subrange(1, bytes.len() as int);
        assert(first & 0x7f == first) by (bit_vector)
            requires
                first <= 0x7f,
        ;
        lemma_ascii_text(rest);
    }
}

} // verus!
