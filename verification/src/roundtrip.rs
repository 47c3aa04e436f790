use vstd::prelude::*;
use crate::boundaries::boundary_set;
use crate::boundaries::case_change_at;
use crate::boundaries::is_separator;
use crate::boundaries::push_bound;
use crate::boundaries::scan_from;
use crate::boundaries::scan_step;
use crate::unicode::ascii_lower;
use crate::unicode::ascii_upper;
use crate::unicode::graphemes_of;
use crate::unicode::is_printable_ascii;
use crate::unicode::lower_of;
use crate::unicode::printable_ascii;
use crate::unicode::upper_of;
use crate::tokens::drop_separator_segments;
use crate::tokens::is_separator_segment;
use crate::tokens::segments;
use crate::tokens::spec_tokenize;
use crate::unicode::char_is_upper;
use crate::variants::camel_caps;
use crate::variants::cluster_upper;
use crate::variants::constant_caps;
use crate::variants::lower_caps;
use crate::variants::pascal_caps;
use crate::variants::render;
use crate::variants::render_clusters;
use crate::variants::render_token;
use crate::variants::render_tokens_from;
use crate::variants::spec_variants;
use crate::variants::CapitalizationStrategy;

verus! {

/// An ASCII letter.
pub open spec fn ascii_letter(c: char) -> bool {
    ('a' <= c && c <= 'z') || ('A' <= c && c <= 'Z')
}

/// A sequence of ASCII letters only.
pub open spec fn ascii_letters(t: Seq<char>) -> bool {
    forall|j: int| 0 <= j < t.len() ==> ascii_letter(#[trigger] t[j])
}

/// Every character mapped to its ASCII lowercase form.
pub open spec fn mapped_lower(t: Seq<char>) -> Seq<char> {
    t.map_values(|c: char| ascii_lower(c))
}

/// Every character mapped to its ASCII uppercase form.
pub open spec fn mapped_upper(t: Seq<char>) -> Seq<char> {
    t.map_values(|c: char| ascii_upper(c))
}

/// The first character uppercased, the rest lowercased.
pub open spec fn cap_first_form(t: Seq<char>) -> Seq<char> {
    seq![ascii_upper(t[0])] + mapped_lower(t.skip(1))
}

/// An ASCII letter is printable, and its case mappings are ASCII letters.
proof fn lemma_ascii_letter_facts(c: char)
    requires
        ascii_letter(c),
    ensures
        is_printable_ascii(c),
        ascii_letter(ascii_lower(c)),
        ascii_letter(ascii_upper(c)),
        'a' <= ascii_lower(c) && ascii_lower(c) <= 'z',
        'A' <= ascii_upper(c) && ascii_upper(c) <= 'Z',
        ascii_lower(ascii_lower(c)) == ascii_lower(c),
        ascii_upper(ascii_upper(c)) == ascii_upper(c),
{
}

/// Rendering the clusters of an ASCII-letter token from cluster `k` onward
/// maps each remaining character through the ASCII case mapping that its
/// position and the rules select.
proof fn lemma_render_clusters_ascii(
    t: Seq<char>,
    caps: Seq<CapitalizationStrategy>,
    ft: bool,
    k: int,
)
    requires
        ascii_letters(t),
        0 <= k <= t.len(),
    ensures
        !caps.contains(CapitalizationStrategy::NoCharactersCapitalized) && caps.contains(
            CapitalizationStrategy::AllCharactersCapitalized,
        ) ==> render_clusters(graphemes_of(t), caps, ft, k) == mapped_upper(t.skip(k)),
        caps.contains(CapitalizationStrategy::NoCharactersCapitalized) || (!caps.contains(
            CapitalizationStrategy::AllCharactersCapitalized,
        ) && (k > 0 || !cluster_upper(caps, ft, true))) ==> render_clusters(
            graphemes_of(t),
            caps,
            ft,
            k,
        ) == mapped_lower(t.skip(k)),
        !caps.contains(CapitalizationStrategy::NoCharactersCapitalized) && !caps.contains(
            CapitalizationStrategy::AllCharactersCapitalized,
        ) && k == 0 && k < t.len() && cluster_upper(caps, ft, true) ==> render_clusters(
            graphemes_of(t),
            caps,
            ft,
            k,
        ) == cap_first_form(t),
    decreases t.len() - k,
{
    assert(printable_ascii(t)) by {
        assert forall|j: int| 0 <= j < t.len() implies is_printable_ascii(#[trigger] t[j]) by {
            lemma_ascii_letter_facts(t[j]);
        }
    }
    let gs = graphemes_of(t);
    assert(gs.len() == t.len());
    if k < t.len() {
        lemma_render_clusters_ascii(t, caps, ft, k + 1);
        let g = gs[k];
        assert(g =~= seq![t[k]]);
        lemma_ascii_letter_facts(t[k]);
        assert(printable_ascii(g));
        assert(lower_of(g) =~= seq![ascii_lower(t[k])]);
        assert(upper_of(g) =~= seq![ascii_upper(t[k])]);
        assert(seq![ascii_lower(t[k])] + mapped_lower(t.skip(k + 1)) =~= mapped_lower(t.skip(k)));
        assert(seq![ascii_upper(t[k])] + mapped_upper(t.skip(k + 1)) =~= mapped_upper(t.skip(k)));
        if k == 0 {
            assert(seq![ascii_upper(t[0])] + mapped_lower(t.skip(1)) == cap_first_form(t));
        }
    } else {
        assert(render_clusters(gs, caps, ft, k) == Seq::<char>::empty());
        assert(mapped_lower(t.skip(k)) =~= Seq::<char>::empty());
        assert(mapped_upper(t.skip(k)) =~= Seq::<char>::empty());
    }
}

/// What rendering one ASCII-letter token produces: all-uppercase, or
/// all-lowercase, or capital first letter with a lowercase rest, as the rules
/// and the token's position select.
proof fn lemma_render_token_ascii(t: Seq<char>, caps: Seq<CapitalizationStrategy>, ft: bool)
    requires
        ascii_letters(t),
    ensures
        !caps.contains(CapitalizationStrategy::NoCharactersCapitalized) && caps.contains(
            CapitalizationStrategy::AllCharactersCapitalized,
        ) ==> render_token(t, caps, ft) == mapped_upper(t),
        caps.contains(CapitalizationStrategy::NoCharactersCapitalized) || (!caps.contains(
            CapitalizationStrategy::AllCharactersCapitalized,
        ) && !cluster_upper(caps, ft, true)) ==> render_token(t, caps, ft) == mapped_lower(t),
        !caps.contains(CapitalizationStrategy::NoCharactersCapitalized) && !caps.contains(
            CapitalizationStrategy::AllCharactersCapitalized,
        ) && t.len() >= 1 && cluster_upper(caps, ft, true) ==> render_token(t, caps, ft)
            == cap_first_form(t),
{
    lemma_render_clusters_ascii(t, caps, ft, 0);
    assert(t.skip(0) =~= t);
    if t.len() == 0 {
        assert(mapped_lower(t.skip(0)) =~= mapped_lower(t));
    }
}

/// A non-empty run of lowercase ASCII letters.
pub open spec fn all_lower_word(w: Seq<char>) -> bool {
    w.len() >= 1 && forall|j: int| 0 <= j < w.len() ==> 'a' <= #[trigger] w[j] && w[j] <= 'z'
}

/// A non-empty run of uppercase ASCII letters.
pub open spec fn all_upper_word(w: Seq<char>) -> bool {
    w.len() >= 1 && forall|j: int| 0 <= j < w.len() ==> 'A' <= #[trigger] w[j] && w[j] <= 'Z'
}

/// An uppercase ASCII letter followed by lowercase ASCII letters.
pub open spec fn cap_word(w: Seq<char>) -> bool {
    &&& w.len() >= 1
    &&& 'A' <= w[0] && w[0] <= 'Z'
    &&& forall|j: int| 1 <= j < w.len() ==> 'a' <= #[trigger] w[j] && w[j] <= 'z'
}

/// The shapes a rendered ASCII token can take.
pub open spec fn rendered_word(w: Seq<char>) -> bool {
    all_lower_word(w) || all_upper_word(w) || cap_word(w)
}

/// Scanning a stretch without separators or case transitions emits nothing.
proof fn lemma_scan_quiet(s: Seq<char>, i: int, m: int, b: Seq<int>)
    requires
        0 <= i <= m <= s.len(),
        forall|p: int| i <= p < m ==> !is_separator(#[trigger] s[p]) && !case_change_at(s, p),
    ensures
        scan_from(s, i, b) == scan_from(s, m, b),
    decreases m - i,
{
    if i < m {
        assert(scan_step(s, i, b) == b);
        lemma_scan_quiet(s, i + 1, m, b);
    }
}

/// Scanning across one rendered word emits no boundary: the only case
/// transition a word shape allows sits at its first character, where the
/// latest boundary already stands.
proof fn lemma_scan_word(s: Seq<char>, i: int, m: int, b: Seq<int>)
    requires
        0 <= i < m <= s.len(),
        rendered_word(s.subrange(i, m)),
        m < s.len() ==> is_separator(s[m]),
        b.len() >= 1,
        b.last() == i,
    ensures
        scan_from(s, i, b) == scan_from(s, m, b),
{
    let w = s.subrange(i, m);
    assert(forall|p: int| i <= p < m ==> s[p] == w[p - i]);
    if all_lower_word(w) || all_upper_word(w) || w.len() == 1 {
        assert forall|p: int| i <= p < m implies !is_separator(#[trigger] s[p]) && !case_change_at(
            s,
            p,
        ) by {
            assert(s[p] == w[p - i]);
            if p + 1 < s.len() && !is_separator(s[p + 1]) {
                if p + 1 < m {
                    assert(s[p + 1] == w[p + 1 - i]);
                }
            }
        }
        lemma_scan_quiet(s, i, m, b);
    } else {
        assert(cap_word(w) && w.len() >= 2);
        assert(s[i] == w[0] && s[i + 1] == w[1]);
        assert(case_change_at(s, i));
        assert(scan_step(s, i, b) == push_bound(b, i));
        assert(push_bound(b, i) == b);
        assert forall|p: int|
            i + 1 <= p < m implies !is_separator(#[trigger] s[p]) && !case_change_at(s, p) by {
            assert(s[p] == w[p - i]);
            if p + 1 < s.len() && !is_separator(s[p + 1]) {
                if p + 1 < m {
                    assert(s[p + 1] == w[p + 1 - i]);
                }
            }
        }
        lemma_scan_quiet(s, i + 1, m, b);
    }
}

/// The words from index `k` onward, joined by the joiner.
pub open spec fn joined_from(ws: Seq<Seq<char>>, j: Seq<char>, k: int) -> Seq<char>
    decreases ws.len() - k,
    when 0 <= k
{
    if k >= ws.len() {
        Seq::empty()
    } else if k == ws.len() - 1 {
        ws[k]
    } else {
        ws[k] + j + joined_from(ws, j, k + 1)
    }
}

/// The words a strategy renders, token by token.
pub open spec fn rendered_words(toks: Seq<Seq<char>>, caps: Seq<CapitalizationStrategy>) -> Seq<
    Seq<char>,
> {
    Seq::new(toks.len(), |k: int| render_token(toks[k], caps, k == 0))
}

/// Rendering a token sequence is joining the rendered words.
proof fn lemma_render_is_joined(
    toks: Seq<Seq<char>>,
    caps: Seq<CapitalizationStrategy>,
    joiner: Seq<char>,
    k: int,
)
    requires
        0 <= k,
    ensures
        render_tokens_from(toks, caps, joiner, k) == joined_from(rendered_words(toks, caps), joiner, k),
    decreases toks.len() - k,
{
    if k < toks.len() && k != toks.len() - 1 {
        lemma_render_is_joined(toks, caps, joiner, k + 1);
    }
}

/// The boundaries the scan emits from word `k` onward, when that word starts
/// at offset `pos` and a one-character joiner stands between words: the end
/// of each word but the last is bracketed with the offset after it, and the
/// end of the text closes the sequence.
pub open spec fn tail_bounds(ws: Seq<Seq<char>>, pos: int, k: int) -> Seq<int>
    decreases ws.len() - k,
    when 0 <= k < ws.len()
{
    if k == ws.len() - 1 {
        seq![pos + ws[k].len()]
    } else {
        seq![pos + ws[k].len(), pos + ws[k].len() + 1] + tail_bounds(
            ws,
            pos + ws[k].len() + 1,
            k + 1,
        )
    }
}

/// Scanning the joined words from the start of word `k` appends exactly the
/// expected boundaries.
proof fn lemma_scan_words(
    s: Seq<char>,
    ws: Seq<Seq<char>>,
    j: Seq<char>,
    k: int,
    pos: int,
    b: Seq<int>,
)
    requires
        0 <= k < ws.len(),
        forall|m: int| 0 <= m < ws.len() ==> rendered_word(#[trigger] ws[m]),
        j.len() == 1 && is_separator(j[0]),
        0 <= pos <= s.len(),
        s.subrange(pos, s.len() as int) == joined_from(ws, j, k),
        b.len() >= 1,
        b.last() == pos,
    ensures
        scan_from(s, pos, b) == b + tail_bounds(ws, pos, k),
    decreases ws.len() - k,
{
    let w = ws[k];
    assert(w.len() >= 1);
    let e = pos + w.len();
    let suffix = joined_from(ws, j, k);
    if k == ws.len() - 1 {
        assert(suffix == w);
        assert(e == s.len());
        assert(s.subrange(pos, e) =~= w) by {
            assert(forall|q: int| 0 <= q < w.len() ==> s[pos + q] == suffix[q]);
        }
        lemma_scan_word(s, pos, e, b);
        assert(scan_from(s, e, b) == push_bound(b, e));
        assert(push_bound(b, e) =~= b + seq![e]);
    } else {
        let rest = joined_from(ws, j, k + 1);
        assert(suffix == w + j + rest);
        assert(e + 1 + rest.len() == s.len());
        assert(forall|q: int| 0 <= q < suffix.len() ==> s[pos + q] == #[trigger] suffix[q]);
        assert(s.subrange(pos, e) =~= w) by {
            assert(forall|q: int| 0 <= q < w.len() ==> #[trigger] suffix[q] == w[q]);
        }
        assert(s[e] == j[0]) by {
            assert(suffix[w.len() as int] == j[0]);
            assert(s[pos + w.len()] == suffix[w.len() as int]);
        }
        assert(is_separator(s[e]));
        lemma_scan_word(s, pos, e, b);
        assert(scan_from(s, e, b) == scan_from(s, e + 1, scan_step(s, e, b)));
        let b2 = push_bound(push_bound(b, e), e + 1);
        assert(scan_step(s, e, b) == b2);
        assert(b2 =~= b + seq![e, e + 1]) by {
            assert(push_bound(b, e) == b.push(e));
            assert(b2 == b.push(e).push(e + 1));
        }
        assert forall|q: int|
            0 <= q < rest.len() implies s.subrange(e + 1, s.len() as int)[q] == #[trigger] rest[q] by {
            assert(suffix[w.len() + 1 + q] == rest[q]);
            assert(s[pos + (w.len() + 1 + q)] == suffix[w.len() + 1 + q]);
        }
        assert(s.subrange(e + 1, s.len() as int) =~= rest);
        lemma_scan_words(s, ws, j, k + 1, e + 1, b2);
        assert(b + tail_bounds(ws, pos, k) =~= b2 + tail_bounds(ws, e + 1, k + 1));
    }
}

/// Cutting a text at a split boundary list: the segments are those of the
/// first part, the junction segment, and those of the second part.
proof fn lemma_segments_concat(v: Seq<char>, x: Seq<int>, y: Seq<int>)
    requires
        x.len() >= 1,
        y.len() >= 1,
    ensures
        segments(v, x + y) =~= segments(v, x) + seq![v.subrange(x.last(), y[0])] + segments(v, y),
{
    let lhs = segments(v, x + y);
    let rhs = segments(v, x) + seq![v.subrange(x.last(), y[0])] + segments(v, y);
    assert(lhs.len() == rhs.len());
    assert forall|q: int| 0 <= q < lhs.len() implies lhs[q] == rhs[q] by {
        if q < x.len() - 1 {
            assert((x + y)[q] == x[q] && (x + y)[q + 1] == x[q + 1]);
        } else if q == x.len() - 1 {
            assert((x + y)[q] == x[q] && (x + y)[q + 1] == y[0]);
        } else {
            assert((x + y)[q] == y[q - x.len()] && (x + y)[q + 1] == y[q + 1 - x.len()]);
        }
    }
}

/// Dropping separator segments distributes over concatenation.
proof fn lemma_drop_concat(a: Seq<Seq<char>>, b: Seq<Seq<char>>)
    ensures
        drop_separator_segments(a + b) == drop_separator_segments(a) + drop_separator_segments(b),
    decreases b.len(),
{
    if b.len() == 0 {
        assert(a + b =~= a);
        assert(drop_separator_segments(a) + drop_separator_segments(b) =~= drop_separator_segments(
            a,
        ));
    } else {
        lemma_drop_concat(a, b.drop_last());
        assert((a + b).drop_last() =~= a + b.drop_last());
        assert((a + b).last() == b.last());
        if !is_separator_segment(b.last()) {
            assert(drop_separator_segments(a) + drop_separator_segments(b)
                =~= (drop_separator_segments(a) + drop_separator_segments(b.drop_last())).push(
                b.last(),
            ));
        }
    }
}

/// The tokens of joined rendered words, read back from word `k` onward, are
/// the words themselves: the scan's boundaries cut exactly at the words, and
/// only the joiner segments are dropped.
proof fn lemma_tokens_of_joined(
    v: Seq<char>,
    ws: Seq<Seq<char>>,
    j: Seq<char>,
    k: int,
    pos: int,
)
    requires
        0 <= k < ws.len(),
        forall|m: int| 0 <= m < ws.len() ==> rendered_word(#[trigger] ws[m]),
        forall|m: int| 0 <= m < ws.len() ==> !is_separator_segment(#[trigger] ws[m]),
        j.len() == 1 && is_separator(j[0]),
        0 <= pos <= v.len(),
        v.subrange(pos, v.len() as int) == joined_from(ws, j, k),
    ensures
        drop_separator_segments(segments(v, seq![pos] + tail_bounds(ws, pos, k))) == ws.skip(k),
    decreases ws.len() - k,
{
    let w = ws[k];
    let e = pos + w.len();
    let suffix = joined_from(ws, j, k);
    assert(forall|q: int| 0 <= q < suffix.len() ==> v[pos + q] == #[trigger] suffix[q]);
    if k == ws.len() - 1 {
        let bk = seq![pos] + tail_bounds(ws, pos, k);
        assert(bk =~= seq![pos, e]);
        assert(segments(v, bk) =~= seq![v.subrange(pos, e)]);
        assert(v.subrange(pos, e) =~= w) by {
            assert(forall|q: int| 0 <= q < w.len() ==> #[trigger] suffix[q] == w[q]);
        }
        assert(segments(v, bk) =~= seq![w]);
        assert(drop_separator_segments(seq![w]) =~= seq![w]) by {
            assert(seq![w].drop_last() =~= Seq::<Seq<char>>::empty());
            assert(drop_separator_segments(Seq::<Seq<char>>::empty()).push(w) =~= seq![w]);
        }
        assert(ws.skip(k) =~= seq![w]);
    } else {
        let rest = joined_from(ws, j, k + 1);
        assert(suffix == w + j + rest);
        let x = seq![pos, e];
        let y = seq![e + 1] + tail_bounds(ws, e + 1, k + 1);
        assert(seq![pos] + tail_bounds(ws, pos, k) =~= x + y);
        assert(y.len() >= 1 && y[0] == e + 1);
        lemma_segments_concat(v, x, y);
        assert(segments(v, x) =~= seq![v.subrange(pos, e)]);
        assert(v.subrange(pos, e) =~= w) by {
            assert(forall|q: int| 0 <= q < w.len() ==> #[trigger] suffix[q] == w[q]);
        }
        let junction = v.subrange(e, e + 1);
        assert(junction =~= seq![j[0]]) by {
            assert(suffix[w.len() as int] == j[0]);
            assert(v[pos + w.len()] == suffix[w.len() as int]);
        }
        assert(is_separator_segment(junction));
        assert forall|q: int|
            0 <= q < rest.len() implies v.subrange(e + 1, v.len() as int)[q] == #[trigger] rest[q] by {
            assert(suffix[w.len() + 1 + q] == rest[q]);
            assert(v[pos + (w.len() + 1 + q)] == suffix[w.len() + 1 + q]);
        }
        assert(v.subrange(e + 1, v.len() as int) =~= rest);
        lemma_tokens_of_joined(v, ws, j, k + 1, e + 1);
        lemma_drop_concat(seq![w], seq![junction] + segments(v, y));
        lemma_drop_concat(seq![junction], segments(v, y));
        assert(segments(v, x + y) =~= seq![w] + (seq![junction] + segments(v, y)));
        assert(drop_separator_segments(seq![w]) =~= seq![w]) by {
            assert(seq![w].drop_last() =~= Seq::<Seq<char>>::empty());
            assert(!is_separator_segment(ws[k]));
            assert(drop_separator_segments(Seq::<Seq<char>>::empty()).push(w) =~= seq![w]);
        }
        assert(drop_separator_segments(seq![junction]) =~= Seq::<Seq<char>>::empty()) by {
            assert(seq![junction].last() == junction);
            assert(is_separator_segment(seq![junction].last()));
            assert(seq![junction].drop_last() =~= Seq::<Seq<char>>::empty());
        }
        assert(ws.skip(k) =~= seq![w] + ws.skip(k + 1));
    }
}

/// The three rendered forms of a non-empty ASCII-letter token are word
/// shapes, are ASCII letters again, and are never a bare separator.
proof fn lemma_mapped_shapes(t: Seq<char>)
    requires
        ascii_letters(t),
        t.len() >= 1,
    ensures
        all_lower_word(mapped_lower(t)),
        all_upper_word(mapped_upper(t)),
        cap_word(cap_first_form(t)),
        ascii_letters(mapped_lower(t)),
        ascii_letters(mapped_upper(t)),
        ascii_letters(cap_first_form(t)),
        !is_separator_segment(mapped_lower(t)),
        !is_separator_segment(mapped_upper(t)),
        !is_separator_segment(cap_first_form(t)),
{
    assert forall|q: int| 0 <= q < t.len() implies 'a' <= #[trigger] mapped_lower(t)[q]
        && mapped_lower(t)[q] <= 'z' by {
        lemma_ascii_letter_facts(t[q]);
    }
    assert forall|q: int| 0 <= q < t.len() implies 'A' <= #[trigger] mapped_upper(t)[q]
        && mapped_upper(t)[q] <= 'Z' by {
        lemma_ascii_letter_facts(t[q]);
    }
    lemma_ascii_letter_facts(t[0]);
    assert forall|q: int| 1 <= q < t.len() implies 'a' <= #[trigger] cap_first_form(t)[q]
        && cap_first_form(t)[q] <= 'z' by {
        assert(cap_first_form(t)[q] == mapped_lower(t.skip(1))[q - 1]);
        lemma_ascii_letter_facts(t[q]);
    }
    assert(ascii_letters(mapped_lower(t)) && ascii_letters(mapped_upper(t)) && ascii_letters(
        cap_first_form(t),
    )) by {
        assert(forall|q: int|
            0 <= q < t.len() ==> ascii_letter(#[trigger] mapped_lower(t)[q]) && ascii_letter(
                mapped_upper(t)[q],
            ) && ascii_letter(cap_first_form(t)[q]));
    }
}

/// Rendering is a fixed point on already-rendered ASCII tokens: rendering a
/// rendered token again, in the same position, returns it unchanged.
proof fn lemma_word_fixed_point(t: Seq<char>, caps: Seq<CapitalizationStrategy>, ft: bool)
    requires
        ascii_letters(t),
        t.len() >= 1,
    ensures
        render_token(render_token(t, caps, ft), caps, ft) == render_token(t, caps, ft),
{
    lemma_render_token_ascii(t, caps, ft);
    lemma_mapped_shapes(t);
    let no_chars = caps.contains(CapitalizationStrategy::NoCharactersCapitalized);
    let all_chars = caps.contains(CapitalizationStrategy::AllCharactersCapitalized);
    if !no_chars && all_chars {
        let w = mapped_upper(t);
        lemma_render_token_ascii(w, caps, ft);
        assert(mapped_upper(w) =~= w) by {
            assert forall|q: int| 0 <= q < w.len() implies ascii_upper(w[q]) == w[q] by {
                lemma_ascii_letter_facts(t[q]);
            }
        }
    } else if !no_chars && !all_chars && cluster_upper(caps, ft, true) {
        let w = cap_first_form(t);
        lemma_render_token_ascii(w, caps, ft);
        assert(cap_first_form(w) =~= w) by {
            lemma_ascii_letter_facts(t[0]);
            assert(ascii_upper(w[0]) == w[0]);
            assert forall|q: int| 1 <= q < w.len() implies ascii_lower(w[q]) == w[q] by {
                assert(w[q] == mapped_lower(t.skip(1))[q - 1]);
                lemma_ascii_letter_facts(t[q]);
            }
            assert forall|q: int| 0 <= q < w.len() implies cap_first_form(w)[q] == w[q] by {
                if q == 0 {
                } else {
                    assert(cap_first_form(w)[q] == mapped_lower(w.skip(1))[q - 1]);
                    assert(mapped_lower(w.skip(1))[q - 1] == ascii_lower(w[q]));
                }
            }
        }
    } else {
        let w = mapped_lower(t);
        lemma_render_token_ascii(w, caps, ft);
        assert(mapped_lower(w) =~= w) by {
            assert forall|q: int| 0 <= q < w.len() implies ascii_lower(w[q]) == w[q] by {
                lemma_ascii_letter_facts(t[q]);
            }
        }
    }
}

/// Idempotence for the separator-joined conventions (snake_case, kebab-case,
/// Title_Case, CONSTANT_CASE): rendering the tokens read back from a variant,
/// under the same strategy, reproduces that variant exactly. Holds for token
/// sequences of non-empty ASCII-letter tokens and a one-separator joiner.
pub proof fn lemma_round_trip_separated(
    toks: Seq<Seq<char>>,
    caps: Seq<CapitalizationStrategy>,
    joiner: Seq<char>,
)
    requires
        forall|k: int|
            0 <= k < toks.len() ==> (#[trigger] toks[k]).len() >= 1 && ascii_letters(toks[k]),
        joiner.len() == 1 && is_separator(joiner[0]),
    ensures
        render(spec_tokenize(render(toks, caps, joiner)), caps, joiner) == render(
            toks,
            caps,
            joiner,
        ),
{
    let v = render(toks, caps, joiner);
    let ws = rendered_words(toks, caps);
    lemma_render_is_joined(toks, caps, joiner, 0);
    if toks.len() == 0 {
        assert(v =~= Seq::<char>::empty());
        assert(boundary_set(v) == seq![0int]);
        assert(segments(v, seq![0int]) =~= Seq::<Seq<char>>::empty());
        assert(spec_tokenize(v) == Seq::<Seq<char>>::empty());
    } else {
        assert forall|m: int| 0 <= m < ws.len() implies rendered_word(#[trigger] ws[m])
            && ascii_letters(ws[m]) && !is_separator_segment(ws[m]) by {
            lemma_render_token_ascii(toks[m], caps, m == 0);
            lemma_mapped_shapes(toks[m]);
        }
        assert(v.subrange(0, v.len() as int) =~= v);
        lemma_scan_words(v, ws, joiner, 0, 0, seq![0int]);
        assert(boundary_set(v) == seq![0int] + tail_bounds(ws, 0, 0));
        lemma_tokens_of_joined(v, ws, joiner, 0, 0);
        assert(spec_tokenize(v) == ws.skip(0));
        assert(ws.skip(0) =~= ws);
        lemma_render_is_joined(ws, caps, joiner, 0);
        assert(rendered_words(ws, caps) =~= ws) by {
            assert forall|m: int| 0 <= m < ws.len() implies #[trigger] rendered_words(ws, caps)[m]
                == ws[m] by {
                lemma_word_fixed_point(toks[m], caps, m == 0);
            }
        }
    }
}

/// Idempotence at the variant table, for the separator-joined conventions:
/// snake_case (index 2), kebab-case (index 3), Title_Case (index 4) and
/// CONSTANT_CASE (index 5) of a sequence of non-empty ASCII-letter tokens
/// each reproduce themselves when their own tokens are rendered again under
/// the same convention.
pub proof fn lemma_variants_idempotent_separated(toks: Seq<Seq<char>>, i: int)
    requires
        forall|k: int|
            0 <= k < toks.len() ==> (#[trigger] toks[k]).len() >= 1 && ascii_letters(toks[k]),
        2 <= i <= 5,
    ensures
        spec_variants(spec_tokenize(spec_variants(toks)[i]))[i] == spec_variants(toks)[i],
{
    if i == 2 {
        lemma_round_trip_separated(toks, lower_caps(), seq!['_']);
    } else if i == 3 {
        lemma_round_trip_separated(toks, lower_caps(), seq!['-']);
    } else if i == 4 {
        lemma_round_trip_separated(toks, pascal_caps(), seq!['_']);
    } else {
        lemma_round_trip_separated(toks, constant_caps(), seq!['_']);
    }
}


/// Scanning across one rendered word that ends in a lowercase letter, with an
/// uppercase letter right after it, emits exactly the boundary after the
/// word: the case transition at its last character starts the next word.
proof fn lemma_scan_word_gap(s: Seq<char>, i: int, m: int, b: Seq<int>)
    requires
        0 <= i < m < s.len(),
        rendered_word(s.subrange(i, m)),
        'a' <= s.subrange(i, m).last() && s.subrange(i, m).last() <= 'z',
        !is_separator(s[m]),
        'A' <= s[m] && s[m] <= 'Z',
        b.len() >= 1,
        b.last() == i,
    ensures
        scan_from(s, i, b) == scan_from(s, m, push_bound(b, m)),
{
    let w = s.subrange(i, m);
    assert(forall|p: int| i <= p < m ==> s[p] == w[p - i]);
    assert(!all_upper_word(w));
    assert(case_change_at(s, m - 1)) by {
        assert(s[m - 1] == w[w.len() - 1]);
    }
    if w.len() == 1 {
        assert(all_lower_word(w));
        assert(scan_step(s, i, b) == push_bound(b, i + 1));
        assert(scan_from(s, i, b) == scan_from(s, m, push_bound(b, m)));
    } else {
        let start: int = if cap_word(w) && !all_lower_word(w) {
            i + 1
        } else {
            i
        };
        if start == i + 1 {
            assert(s[i] == w[0] && s[i + 1] == w[1]);
            assert(case_change_at(s, i));
            assert(scan_step(s, i, b) == push_bound(b, i));
            assert(push_bound(b, i) == b);
        }
        assert forall|p: int|
            start <= p < m - 1 implies !is_separator(#[trigger] s[p]) && !case_change_at(s, p) by {
            assert(s[p] == w[p - i]);
            assert(s[p + 1] == w[p + 1 - i]);
        }
        lemma_scan_quiet(s, start, m - 1, b);
        assert(s[m - 1] == w[w.len() - 1]);
        assert(!is_separator(s[m - 1]));
        assert(!char_is_upper(s[m - 1]));
        assert(scan_step(s, m - 1, b) == push_bound(b, m));
    }
}

/// The boundaries the scan emits from word `k` onward when the words stand
/// directly against each other: one boundary at the end of each word, the
/// last one closing the text.
pub open spec fn tail_bounds_adjacent(ws: Seq<Seq<char>>, pos: int, k: int) -> Seq<int>
    decreases ws.len() - k,
    when 0 <= k < ws.len()
{
    if k == ws.len() - 1 {
        seq![pos + ws[k].len()]
    } else {
        seq![pos + ws[k].len()] + tail_bounds_adjacent(ws, pos + ws[k].len(), k + 1)
    }
}

/// A word that may stand before another word without merging into it: it
/// ends in a lowercase letter.
pub open spec fn gap_word(w: Seq<char>) -> bool {
    rendered_word(w) && 'a' <= w.last() && w.last() <= 'z'
}

/// Scanning adjacent words from the start of word `k` appends exactly one
/// boundary per word end.
proof fn lemma_scan_words_adjacent(
    s: Seq<char>,
    ws: Seq<Seq<char>>,
    k: int,
    pos: int,
    b: Seq<int>,
)
    requires
        0 <= k < ws.len(),
        forall|m: int| 0 <= m < ws.len() ==> rendered_word(#[trigger] ws[m]),
        forall|m: int| 0 <= m < ws.len() - 1 ==> gap_word(#[trigger] ws[m]),
        forall|m: int| 1 <= m < ws.len() ==> 'A' <= (#[trigger] ws[m])[0] && ws[m][0] <= 'Z',
        0 <= pos <= s.len(),
        s.subrange(pos, s.len() as int) == joined_from(ws, Seq::empty(), k),
    b.len() >= 1,
        b.last() == pos,
    ensures
        scan_from(s, pos, b) == b + tail_bounds_adjacent(ws, pos, k),
    decreases ws.len() - k,
{
    let w = ws[k];
    assert(w.len() >= 1);
    let e = pos + w.len();
    let suffix = joined_from(ws, Seq::empty(), k);
    assert(forall|q: int| 0 <= q < suffix.len() ==> s[pos + q] == #[trigger] suffix[q]);
    if k == ws.len() - 1 {
        assert(suffix == w);
        assert(e == s.len());
        assert(s.subrange(pos, e) =~= w) by {
            assert(forall|q: int| 0 <= q < w.len() ==> #[trigger] suffix[q] == w[q]);
        }
        lemma_scan_word(s, pos, e, b);
        assert(scan_from(s, e, b) == push_bound(b, e));
        assert(push_bound(b, e) =~= b + seq![e]);
    } else {
        let rest = joined_from(ws, Seq::empty(), k + 1);
        assert(suffix =~= w + rest) by {
            assert(suffix == w + Seq::<char>::empty() + rest);
        }
        assert(suffix.len() == s.len() - pos) by {
            assert(s.subrange(pos, s.len() as int).len() == s.len() - pos);
        }
        assert(e + rest.len() == s.len());
        assert(s.subrange(pos, e) =~= w) by {
            assert(forall|q: int| 0 <= q < w.len() ==> #[trigger] suffix[q] == w[q]);
        }
        assert(rest.len() >= 1 && rest[0] == ws[k + 1][0]) by {
            if k + 1 == ws.len() - 1 {
                assert(rest == ws[k + 1]);
            } else {
                assert(rest == ws[k + 1] + Seq::<char>::empty() + joined_from(
                    ws,
                    Seq::empty(),
                    k + 2,
                ));
            }
        }
        assert(s[e] == rest[0]) by {
            assert(suffix[w.len() as int] == rest[0]);
            assert(s[pos + w.len()] == suffix[w.len() as int]);
        }
        assert('A' <= s[e] && s[e] <= 'Z');
        assert(!is_separator(s[e]));
        assert(s.subrange(pos, e).last() == w.last());
        lemma_scan_word_gap(s, pos, e, b);
        let b2 = push_bound(b, e);
        assert(b2 =~= b + seq![e]);
        assert forall|q: int|
            0 <= q < rest.len() implies s.subrange(e, s.len() as int)[q] == #[trigger] rest[q] by {
            assert(suffix[w.len() + q] == rest[q]);
            assert(s[pos + (w.len() + q)] == suffix[w.len() + q]);
        }
        assert(s.subrange(e, s.len() as int) =~= rest);
        lemma_scan_words_adjacent(s, ws, k + 1, e, b2);
        assert(b + tail_bounds_adjacent(ws, pos, k) =~= b2 + tail_bounds_adjacent(ws, e, k + 1));
    }
}

/// The tokens of adjacent rendered words, read back from word `k` onward, are
/// the words themselves.
proof fn lemma_tokens_of_adjacent(v: Seq<char>, ws: Seq<Seq<char>>, k: int, pos: int)
    requires
        0 <= k < ws.len(),
        forall|m: int| 0 <= m < ws.len() ==> rendered_word(#[trigger] ws[m]),
        forall|m: int| 0 <= m < ws.len() ==> !is_separator_segment(#[trigger] ws[m]),
        0 <= pos <= v.len(),
        v.subrange(pos, v.len() as int) == joined_from(ws, Seq::empty(), k),
    ensures
        drop_separator_segments(segments(v, seq![pos] + tail_bounds_adjacent(ws, pos, k)))
            == ws.skip(k),
    decreases ws.len() - k,
{
    let w = ws[k];
    let e = pos + w.len();
    let suffix = joined_from(ws, Seq::empty(), k);
    assert(forall|q: int| 0 <= q < suffix.len() ==> v[pos + q] == #[trigger] suffix[q]);
    if k == ws.len() - 1 {
        let bk = seq![pos] + tail_bounds_adjacent(ws, pos, k);
        assert(bk =~= seq![pos, e]);
        assert(segments(v, bk) =~= seq![v.subrange(pos, e)]);
        assert(v.subrange(pos, e) =~= w) by {
            assert(forall|q: int| 0 <= q < w.len() ==> #[trigger] suffix[q] == w[q]);
        }
        assert(drop_separator_segments(seq![w]) =~= seq![w]) by {
            assert(seq![w].last() == w);
            assert(!is_separator_segment(ws[k]));
            assert(seq![w].drop_last() =~= Seq::<Seq<char>>::empty());
            assert(drop_separator_segments(Seq::<Seq<char>>::empty()).push(w) =~= seq![w]);
        }
        assert(ws.skip(k) =~= seq![w]);
    } else {
        let rest = joined_from(ws, Seq::empty(), k + 1);
        assert(suffix =~= w + rest) by {
            assert(suffix == w + Seq::<char>::empty() + rest);
        }
        assert(suffix.len() == v.len() - pos) by {
            assert(v.subrange(pos, v.len() as int).len() == v.len() - pos);
        }
        let x = seq![pos];
        let y = seq![e] + tail_bounds_adjacent(ws, e, k + 1);
        assert(seq![pos] + tail_bounds_adjacent(ws, pos, k) =~= x + y);
        assert(y.len() >= 1 && y[0] == e);
        lemma_segments_concat(v, x, y);
        assert(segments(v, x) =~= Seq::<Seq<char>>::empty());
        let junction = v.subrange(pos, e);
        assert(junction =~= w) by {
            assert(forall|q: int| 0 <= q < w.len() ==> #[trigger] suffix[q] == w[q]);
        }
        assert forall|q: int|
            0 <= q < rest.len() implies v.subrange(e, v.len() as int)[q] == #[trigger] rest[q] by {
            assert(suffix[w.len() + q] == rest[q]);
            assert(v[pos + (w.len() + q)] == suffix[w.len() + q]);
        }
        assert(v.subrange(e, v.len() as int) =~= rest);
        lemma_tokens_of_adjacent(v, ws, k + 1, e);
        lemma_drop_concat(Seq::<Seq<char>>::empty() + seq![junction], segments(v, y));
        lemma_drop_concat(Seq::<Seq<char>>::empty(), seq![junction]);
        assert(segments(v, x + y) =~= (Seq::<Seq<char>>::empty() + seq![junction]) + segments(
            v,
            y,
        ));
        assert(drop_separator_segments(seq![junction]) =~= seq![w]) by {
            assert(seq![junction].last() == junction);
            assert(!is_separator_segment(ws[k]));
            assert(!is_separator_segment(junction));
            assert(seq![junction].drop_last() =~= Seq::<Seq<char>>::empty());
            assert(drop_separator_segments(Seq::<Seq<char>>::empty()).push(junction)
                =~= seq![junction]);
        }
        assert(Seq::<Seq<char>>::empty() + seq![junction] =~= seq![junction]);
        assert(ws.skip(k) =~= seq![w] + ws.skip(k + 1));
    }
}

/// Idempotence for the conventions that join tokens directly (camelCase and
/// PascalCase): rendering the tokens read back from a variant, under the same
/// strategy, reproduces that variant. Holds for non-empty ASCII-letter tokens
/// when every capitalized token standing before another token has at least
/// two letters — a one-letter capitalized token would merge into its
/// successor when read back.
pub proof fn lemma_round_trip_adjacent(toks: Seq<Seq<char>>, caps: Seq<CapitalizationStrategy>)
    requires
        forall|k: int|
            0 <= k < toks.len() ==> (#[trigger] toks[k]).len() >= 1 && ascii_letters(toks[k]),
        forall|k: int| 0 < k < toks.len() - 1 ==> (#[trigger] toks[k]).len() >= 2,
        cluster_upper(caps, true, true) && toks.len() >= 2 ==> toks[0].len() >= 2,
        !caps.contains(CapitalizationStrategy::NoCharactersCapitalized),
        !caps.contains(CapitalizationStrategy::AllCharactersCapitalized),
        cluster_upper(caps, false, true),
    ensures
        render(spec_tokenize(render(toks, caps, Seq::empty())), caps, Seq::empty()) == render(
            toks,
            caps,
            Seq::empty(),
        ),
{
    let joiner = Seq::<char>::empty();
    let v = render(toks, caps, joiner);
    let ws = rendered_words(toks, caps);
    lemma_render_is_joined(toks, caps, joiner, 0);
    if toks.len() == 0 {
        assert(v =~= Seq::<char>::empty());
        assert(boundary_set(v) == seq![0int]);
        assert(segments(v, seq![0int]) =~= Seq::<Seq<char>>::empty());
        assert(spec_tokenize(v) == Seq::<Seq<char>>::empty());
    } else {
        assert forall|m: int| 0 <= m < ws.len() implies rendered_word(#[trigger] ws[m])
            && ascii_letters(ws[m]) && !is_separator_segment(ws[m]) && (m < ws.len() - 1
            ==> gap_word(ws[m])) && (m >= 1 ==> 'A' <= ws[m][0] && ws[m][0] <= 'Z') by {
            lemma_render_token_ascii(toks[m], caps, m == 0);
            lemma_mapped_shapes(toks[m]);
            let t = toks[m];
            if m == 0 && !cluster_upper(caps, true, true) {
                assert(ws[m] == mapped_lower(t));
                assert forall|q: int| 0 <= q < t.len() implies 'a' <= #[trigger] mapped_lower(
                    t,
                )[q] && mapped_lower(t)[q] <= 'z' by {
                    lemma_ascii_letter_facts(t[q]);
                }
            } else {
                assert(ws[m] == cap_first_form(t));
                if m < ws.len() - 1 {
                    assert(t.len() >= 2);
                    assert(cap_first_form(t).last() == mapped_lower(t.skip(1)).last());
                    assert(mapped_lower(t.skip(1)).last() == ascii_lower(t[t.len() - 1]));
                    lemma_ascii_letter_facts(t[t.len() - 1]);
                }
            }
        }
        assert(v.subrange(0, v.len() as int) =~= v);
        lemma_scan_words_adjacent(v, ws, 0, 0, seq![0int]);
        assert(boundary_set(v) == seq![0int] + tail_bounds_adjacent(ws, 0, 0));
        lemma_tokens_of_adjacent(v, ws, 0, 0);
        assert(spec_tokenize(v) == ws.skip(0));
        assert(ws.skip(0) =~= ws);
        lemma_render_is_joined(ws, caps, joiner, 0);
        assert(rendered_words(ws, caps) =~= ws) by {
            assert forall|m: int| 0 <= m < ws.len() implies #[trigger] rendered_words(ws, caps)[m]
                == ws[m] by {
                lemma_word_fixed_point(toks[m], caps, m == 0);
            }
        }
    }
}

/// Idempotence at the variant table, for the directly joined conventions:
/// camelCase (index 0) and PascalCase (index 1) of a sequence of non-empty
/// ASCII-letter tokens reproduce themselves when their own tokens are
/// rendered again, provided every capitalized token standing before another
/// has at least two letters.
pub proof fn lemma_variants_idempotent_adjacent(toks: Seq<Seq<char>>, i: int)
    requires
        forall|k: int|
            0 <= k < toks.len() ==> (#[trigger] toks[k]).len() >= 1 && ascii_letters(toks[k]),
        forall|k: int| 0 < k < toks.len() - 1 ==> (#[trigger] toks[k]).len() >= 2,
        0 <= i <= 1,
        i == 1 && toks.len() >= 2 ==> toks[0].len() >= 2,
    ensures
        spec_variants(spec_tokenize(spec_variants(toks)[i]))[i] == spec_variants(toks)[i],
{
    if i == 0 {
        assert(camel_caps().contains(CapitalizationStrategy::RestTokensCapitalized)) by {
            assert(camel_caps()[0] == CapitalizationStrategy::RestTokensCapitalized);
        }
        assert(forall|j: int|
            0 <= j < camel_caps().len() ==> #[trigger] camel_caps()[j]
                == CapitalizationStrategy::RestTokensCapitalized);
        assert(!camel_caps().contains(CapitalizationStrategy::NoCharactersCapitalized));
        assert(!camel_caps().contains(CapitalizationStrategy::AllCharactersCapitalized));
        assert(!camel_caps().contains(CapitalizationStrategy::FirstTokenCapitalized));
        lemma_round_trip_adjacent(toks, camel_caps());
    } else {
        assert(pascal_caps().contains(CapitalizationStrategy::RestTokensCapitalized)) by {
            assert(pascal_caps()[1] == CapitalizationStrategy::RestTokensCapitalized);
        }
        assert(forall|j: int|
            0 <= j < pascal_caps().len() ==> (#[trigger] pascal_caps()[j]
                == CapitalizationStrategy::FirstTokenCapitalized || pascal_caps()[j]
                == CapitalizationStrategy::RestTokensCapitalized));
        assert(!pascal_caps().contains(CapitalizationStrategy::NoCharactersCapitalized));
        assert(!pascal_caps().contains(CapitalizationStrategy::AllCharactersCapitalized));
        lemma_round_trip_adjacent(toks, pascal_caps());
    }
}


/// Two characters that are the same ASCII letter up to case map to the same
/// uppercase letter as well.
proof fn lemma_case_equal_upper(a: char, b: char)
    requires
        ascii_letter(a),
        ascii_letter(b),
        ascii_lower(a) == ascii_lower(b),
    ensures
        ascii_upper(a) == ascii_upper(b),
{
    lemma_ascii_letter_facts(a);
    lemma_ascii_letter_facts(b);
}

/// Two token sequences of the same shape whose corresponding characters are
/// equal up to ASCII case.
pub open spec fn case_equal_tokens(ts1: Seq<Seq<char>>, ts2: Seq<Seq<char>>) -> bool {
    &&& ts1.len() == ts2.len()
    &&& forall|k: int| 0 <= k < ts1.len() ==> (#[trigger] ts1[k]).len() == ts2[k].len()
    &&& forall|k: int, q: int|
        0 <= k < ts1.len() && 0 <= q < ts1[k].len() ==> ascii_lower(#[trigger] ts1[k][q])
            == ascii_lower(ts2[k][q])
}

/// Tokens equal up to ASCII case render identically, whatever the rules and
/// the token's position.
proof fn lemma_render_token_case_equal(
    t1: Seq<char>,
    t2: Seq<char>,
    caps: Seq<CapitalizationStrategy>,
    ft: bool,
)
    requires
        ascii_letters(t1),
        ascii_letters(t2),
        t1.len() == t2.len(),
        forall|q: int| 0 <= q < t1.len() ==> ascii_lower(#[trigger] t1[q]) == ascii_lower(t2[q]),
    ensures
        render_token(t1, caps, ft) == render_token(t2, caps, ft),
{
    if t1.len() == 0 {
        assert(graphemes_of(t1).len() == 0 && graphemes_of(t2).len() == 0);
        assert(render_token(t1, caps, ft) == Seq::<char>::empty());
        assert(render_token(t2, caps, ft) == Seq::<char>::empty());
    } else {
        lemma_render_token_ascii(t1, caps, ft);
        lemma_render_token_ascii(t2, caps, ft);
        assert(mapped_lower(t1) =~= mapped_lower(t2));
        assert(mapped_upper(t1) =~= mapped_upper(t2)) by {
            assert forall|q: int| 0 <= q < t1.len() implies ascii_upper(t1[q]) == ascii_upper(
                t2[q],
            ) by {
                lemma_case_equal_upper(t1[q], t2[q]);
            }
        }
        assert(cap_first_form(t1) =~= cap_first_form(t2)) by {
            lemma_case_equal_upper(t1[0], t2[0]);
            assert(mapped_lower(t1.skip(1)) =~= mapped_lower(t2.skip(1)));
        }
    }
}

/// Token sequences equal up to ASCII case render identically from any index
/// onward, whatever the rules and the joiner.
proof fn lemma_render_case_equal(
    ts1: Seq<Seq<char>>,
    ts2: Seq<Seq<char>>,
    caps: Seq<CapitalizationStrategy>,
    joiner: Seq<char>,
    k: int,
)
    requires
        forall|m: int| 0 <= m < ts1.len() ==> ascii_letters(#[trigger] ts1[m]),
        forall|m: int| 0 <= m < ts2.len() ==> ascii_letters(#[trigger] ts2[m]),
        case_equal_tokens(ts1, ts2),
        0 <= k,
    ensures
        render_tokens_from(ts1, caps, joiner, k) == render_tokens_from(ts2, caps, joiner, k),
    decreases ts1.len() - k,
{
    if k < ts1.len() {
        assert(forall|q: int|
            0 <= q < ts1[k].len() ==> ascii_lower(#[trigger] ts1[k][q]) == ascii_lower(ts2[k][q]));
        lemma_render_token_case_equal(ts1[k], ts2[k], caps, k == 0);
        if k < ts1.len() - 1 {
            lemma_render_case_equal(ts1, ts2, caps, joiner, k + 1);
        }
    }
}

/// The casing of the source tokens is irrelevant to the rendered variants:
/// two token sequences of ASCII letters that agree up to per-character case
/// produce the same six variants.
pub proof fn lemma_variants_case_insensitive(ts1: Seq<Seq<char>>, ts2: Seq<Seq<char>>)
    requires
        forall|m: int| 0 <= m < ts1.len() ==> ascii_letters(#[trigger] ts1[m]),
        forall|m: int| 0 <= m < ts2.len() ==> ascii_letters(#[trigger] ts2[m]),
        case_equal_tokens(ts1, ts2),
    ensures
        spec_variants(ts1) == spec_variants(ts2),
{
    lemma_render_case_equal(ts1, ts2, camel_caps(), Seq::empty(), 0);
    lemma_render_case_equal(ts1, ts2, pascal_caps(), Seq::empty(), 0);
    lemma_render_case_equal(ts1, ts2, lower_caps(), seq!['_'], 0);
    lemma_render_case_equal(ts1, ts2, lower_caps(), seq!['-'], 0);
    lemma_render_case_equal(ts1, ts2, pascal_caps(), seq!['_'], 0);
    lemma_render_case_equal(ts1, ts2, constant_caps(), seq!['_'], 0);
    assert(spec_variants(ts1) =~= spec_variants(ts2));
}

} // verus!
