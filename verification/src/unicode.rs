use vstd::prelude::*;
use unicode_segmentation::UnicodeSegmentation;

verus! {

/// A character in the printable ASCII range.
pub open spec fn is_printable_ascii(c: char) -> bool {
    ' ' <= c && c <= '~'
}

/// A character sequence made only of printable ASCII characters.
pub open spec fn printable_ascii(s: Seq<char>) -> bool {
    forall|j: int| 0 <= j < s.len() ==> is_printable_ascii(#[trigger] s[j])
}

/// The ASCII lowercase mapping: `A`..`Z` map to `a`..`z`, everything else in
/// the ASCII range is unchanged.
pub open spec fn ascii_lower(c: char) -> char {
    if 'A' <= c && c <= 'Z' {
        ((c as u32) + 32) as char
    } else {
        c
    }
}

/// The ASCII uppercase mapping: `a`..`z` map to `A`..`Z`, everything else in
/// the ASCII range is unchanged.
pub open spec fn ascii_upper(c: char) -> char {
    if 'a' <= c && c <= 'z' {
        ((c as u32) - 32) as char
    } else {
        c
    }
}

/// Whether a character beyond ASCII has the Unicode `Uppercase` property.
/// That part of the property is a large table, so it is left abstract;
/// `is_uppercase_char` is the only source of facts about it.
pub uninterp spec fn upper_beyond_ascii(c: char) -> bool;

/// Whether a character has the Unicode `Uppercase` property. In the ASCII
/// range the property holds exactly of `A`..`Z`; beyond it, it is abstract.
pub open spec fn char_is_upper(c: char) -> bool {
    if c <= '\u{7f}' {
        'A' <= c && c <= 'Z'
    } else {
        upper_beyond_ascii(c)
    }
}

/// Relies on `char::is_uppercase`: true exactly of characters with the
/// Unicode `Uppercase` property — `A` to `Z` in the ASCII range — a function
/// of the character alone.
#[verifier::external_body]
pub fn is_uppercase_char(c: char) -> (r: bool)
    ensures
        r == char_is_upper(c),
        c > '\u{7f}' ==> r == upper_beyond_ascii(c),
{
    c.is_uppercase()
}

/// The extended grapheme clusters of a character sequence that is not all
/// printable ASCII. The segmentation rules fill a standard of their own, so
/// this part is left abstract; `grapheme_clusters` is the only source of
/// facts about it.
pub uninterp spec fn graphemes_beyond_ascii(s: Seq<char>) -> Seq<Seq<char>>;

/// The extended grapheme clusters of a character sequence, in order. No
/// printable ASCII character combines with a neighbour, so in that range
/// every character is its own cluster; beyond it the value is abstract.
pub open spec fn graphemes_of(s: Seq<char>) -> Seq<Seq<char>> {
    if printable_ascii(s) {
        Seq::new(s.len(), |j: int| seq![s[j]])
    } else {
        graphemes_beyond_ascii(s)
    }
}

/// The full Unicode lowercase mapping of a character sequence that is not all
/// printable ASCII. That part of the mapping is a large table, so it is left
/// abstract; `lowercase` is the only source of facts about it.
pub uninterp spec fn lower_beyond_ascii(s: Seq<char>) -> Seq<char>;

/// The full Unicode lowercase mapping of a character sequence. The mapping
/// works character by character; in the ASCII range it is the ASCII mapping,
/// beyond it the value is abstract.
pub open spec fn lower_of(s: Seq<char>) -> Seq<char> {
    if printable_ascii(s) {
        s.map_values(|c: char| ascii_lower(c))
    } else {
        lower_beyond_ascii(s)
    }
}

/// The full Unicode uppercase mapping of a character sequence that is not all
/// printable ASCII. That part of the mapping is a large table, so it is left
/// abstract; `uppercase` is the only source of facts about it.
pub uninterp spec fn upper_beyond_ascii_seq(s: Seq<char>) -> Seq<char>;

/// The full Unicode uppercase mapping of a character sequence. The mapping
/// works character by character; in the ASCII range it is the ASCII mapping,
/// beyond it the value is abstract.
pub open spec fn upper_of(s: Seq<char>) -> Seq<char> {
    if printable_ascii(s) {
        s.map_values(|c: char| ascii_upper(c))
    } else {
        upper_beyond_ascii_seq(s)
    }
}

/// Relies on `unicode_segmentation::UnicodeSegmentation::graphemes` with
/// extended clusters: it partitions a string into its grapheme clusters —
/// printable ASCII characters never combine, so each is its own cluster —
/// and concatenating the clusters restores the string, no cluster being
/// empty.
#[verifier::external_body]
pub fn grapheme_clusters(s: &str) -> (r: Vec<String>)
    ensures
        r@.map_values(|g: String| g@) == graphemes_of(s@),
        !printable_ascii(s@) ==> r@.map_values(|g: String| g@) == graphemes_beyond_ascii(s@),
        r@.map_values(|g: String| g@).flatten() == s@,
        forall|j: int| 0 <= j < r@.len() ==> (#[trigger] r@[j])@.len() >= 1,
{
    s.graphemes(true).map(|g| g.to_string()).collect()
}

/// Relies on `str::to_lowercase`: the Unicode lowercase equivalent of the
/// string, a function of its characters alone — the ASCII mapping on ASCII
/// input; every character maps to at least one character, so the result is
/// empty only for empty input.
#[verifier::external_body]
pub fn lowercase(s: &str) -> (r: String)
    ensures
        r@ == lower_of(s@),
        !printable_ascii(s@) ==> r@ == lower_beyond_ascii(s@),
        s@.len() > 0 ==> r@.len() > 0,
{
    s.to_lowercase()
}

/// Relies on `str::to_uppercase`: the Unicode uppercase equivalent of the
/// string, a function of its characters alone — the ASCII mapping on ASCII
/// input; every character maps to at least one character, so the result is
/// empty only for empty input.
#[verifier::external_body]
pub fn uppercase(s: &str) -> (r: String)
    ensures
        r@ == upper_of(s@),
        !printable_ascii(s@) ==> r@ == upper_beyond_ascii_seq(s@),
        s@.len() > 0 ==> r@.len() > 0,
{
    s.to_uppercase()
}

} // verus!
