use vstd::prelude::*;
use crate::table::build_pattern_table;
use crate::table::spec_spellings;
use crate::table::PatternTable;

verus! {

/// Pattern `p` occurs in `h` starting at position `i`. An empty pattern is
/// never counted as occurring.
pub open spec fn occurs_at(h: Seq<char>, p: Seq<char>, i: int) -> bool {
    &&& p.len() > 0
    &&& 0 <= i
    &&& i + p.len() <= h.len()
    &&& h.subrange(i, i + p.len()) == p
}

/// The index of the best pattern match at position `i` among the patterns
/// with index at least `j`: the longest occurrence wins, and among equally
/// long occurrences the smallest index wins.
pub open spec fn best_match_from(pats: Seq<Seq<char>>, h: Seq<char>, i: int, j: int) -> Option<int>
    decreases pats.len() - j,
    when 0 <= j
{
    if j >= pats.len() {
        None
    } else {
        let rest = best_match_from(pats, h, i, j + 1);
        if occurs_at(h, pats[j], i) {
            match rest {
                Option::None => Some(j),
                Option::Some(k) => if pats[k].len() > pats[j].len() {
                    Some(k)
                } else {
                    Some(j)
                },
            }
        } else {
            rest
        }
    }
}

/// The index of the pattern that a leftmost-longest matcher selects at
/// position `i`, if any pattern occurs there.
pub open spec fn best_match_at(pats: Seq<Seq<char>>, h: Seq<char>, i: int) -> Option<int> {
    best_match_from(pats, h, i, 0)
}

/// The replaced text from position `i` onward: at each position the selected
/// match is substituted with the replacement of the same index and scanning
/// resumes after the matched region; an unmatched character passes through.
pub open spec fn replaced_from(
    pats: Seq<Seq<char>>,
    reps: Seq<Seq<char>>,
    h: Seq<char>,
    i: int,
) -> Seq<char>
    decreases h.len() - i,
    when 0 <= i
{
    if i >= h.len() {
        Seq::empty()
    } else {
        match best_match_at(pats, h, i) {
            Option::None => seq![h[i]] + replaced_from(pats, reps, h, i + 1),
            Option::Some(j) => {
                if 0 <= j < pats.len() && pats[j].len() > 0 && i + pats[j].len() <= h.len() {
                    reps[j] + replaced_from(pats, reps, h, i + pats[j].len())
                } else {
                    seq![h[i]] + replaced_from(pats, reps, h, i + 1)
                }
            },
        }
    }
}

/// The whole text rewritten under leftmost-longest multi-pattern replacement.
pub open spec fn spec_replace(pats: Seq<Seq<char>>, reps: Seq<Seq<char>>, h: Seq<char>) -> Seq<
    char,
> {
    replaced_from(pats, reps, h, 0)
}

/// What `best_match_from` selects: an occurring pattern, at least as long as
/// every occurring pattern of index at least `j`, and the first among equally
/// long ones; it returns nothing only when no pattern occurs.
proof fn lemma_best_match_from(pats: Seq<Seq<char>>, h: Seq<char>, i: int, j: int)
    requires
        0 <= j,
    ensures
        best_match_from(pats, h, i, j) matches Some(k) ==> j <= k < pats.len() && occurs_at(
            h,
            pats[k],
            i,
        ),
        best_match_from(pats, h, i, j) matches Some(k) ==> forall|m: int|
            j <= m < pats.len() && occurs_at(h, #[trigger] pats[m], i) ==> pats[m].len()
                <= pats[k].len(),
        best_match_from(pats, h, i, j) matches Some(k) ==> forall|m: int|
            j <= m < k && occurs_at(h, #[trigger] pats[m], i) ==> pats[m].len() < pats[k].len(),
        best_match_from(pats, h, i, j) is None ==> forall|m: int|
            j <= m < pats.len() ==> !occurs_at(h, #[trigger] pats[m], i),
    decreases pats.len() - j,
{
    if j < pats.len() {
        lemma_best_match_from(pats, h, i, j + 1);
    }
}

/// Longest-match precedence: the matcher selects a pattern exactly when one
/// occurs at the position, and it never selects a shorter pattern when a
/// longer one also occurs there.
pub proof fn lemma_longest_match(pats: Seq<Seq<char>>, h: Seq<char>, i: int)
    ensures
        best_match_at(pats, h, i) is Some <==> exists|m: int|
            0 <= m < pats.len() && occurs_at(h, #[trigger] pats[m], i),
        best_match_at(pats, h, i) matches Some(k) ==> 0 <= k < pats.len() && occurs_at(
            h,
            pats[k],
            i,
        ) && forall|m: int|
            0 <= m < pats.len() && occurs_at(h, #[trigger] pats[m], i) ==> pats[m].len()
                <= pats[k].len(),
        best_match_at(pats, h, i) matches Some(k) ==> forall|m: int|
            0 <= m < k && occurs_at(h, #[trigger] pats[m], i) ==> pats[m].len() < pats[k].len(),
{
    lemma_best_match_from(pats, h, i, 0);
}

/// A strictly longer occurring pattern always defeats a shorter one: the
/// matcher never selects a pattern when a longer pattern also occurs at the
/// same position.
pub proof fn lemma_longer_match_wins(pats: Seq<Seq<char>>, h: Seq<char>, i: int, k: int, m: int)
    requires
        0 <= k < pats.len(),
        0 <= m < pats.len(),
        occurs_at(h, pats[m], i),
        pats[m].len() > pats[k].len(),
    ensures
        best_match_at(pats, h, i) != Some(k),
{
    lemma_best_match_from(pats, h, i, 0);
}

/// Pairing: when the matcher selects the pattern of index `k` at a position,
/// the output continues with the replacement of that same index — never with
/// a replacement from a different index — and scanning resumes right after
/// the matched region.
pub proof fn lemma_pairing(
    pats: Seq<Seq<char>>,
    reps: Seq<Seq<char>>,
    h: Seq<char>,
    i: int,
    k: int,
)
    requires
        0 <= i < h.len(),
        best_match_at(pats, h, i) == Some(k),
    ensures
        0 <= k < pats.len(),
        occurs_at(h, pats[k], i),
        replaced_from(pats, reps, h, i) == reps[k] + replaced_from(
            pats,
            reps,
            h,
            i + pats[k].len(),
        ),
{
    lemma_best_match_from(pats, h, i, 0);
}

/// Pass-through: where no pattern occurs anywhere at or after position `i`,
/// the text from `i` onward is copied unchanged.
pub proof fn lemma_no_match_passthrough(
    pats: Seq<Seq<char>>,
    reps: Seq<Seq<char>>,
    h: Seq<char>,
    i: int,
)
    requires
        0 <= i <= h.len(),
        forall|m: int, p: int|
            0 <= m < pats.len() && i <= p < h.len() ==> !#[trigger] occurs_at(h, pats[m], p),
    ensures
        replaced_from(pats, reps, h, i) == h.subrange(i, h.len() as int),
    decreases h.len() - i,
{
    if i >= h.len() {
        assert(h.subrange(i, h.len() as int) =~= Seq::<char>::empty());
    } else {
        lemma_best_match_from(pats, h, i, 0);
        if best_match_at(pats, h, i) is Some {
            let k = best_match_at(pats, h, i)->Some_0;
            assert(occurs_at(h, pats[k], i));
            assert(false);
        }
        lemma_no_match_passthrough(pats, reps, h, i + 1);
        assert(seq![h[i]] + h.subrange(i + 1, h.len() as int) =~= h.subrange(i, h.len() as int));
    }
}

/// A matcher's pattern list: the spellings the automaton was built from.
pub uninterp spec fn matcher_patterns(ac: aho_corasick::AhoCorasick) -> Seq<Seq<char>>;

/// Whether a matcher can be built over a pattern list: building is a
/// deterministic function of the patterns, failing only when they exceed the
/// matcher's internal size limits.
pub uninterp spec fn matcher_buildable(pats: Seq<Seq<char>>) -> bool;

/// Whether a matcher was built with leftmost-longest match semantics.
pub uninterp spec fn matcher_leftmost_longest(ac: aho_corasick::AhoCorasick) -> bool;

#[verifier::external_type_specification]
#[verifier::external_body]
pub struct ExAhoCorasick(aho_corasick::AhoCorasick);

/// Relies on `aho_corasick::AhoCorasickBuilder`: `match_kind` with
/// `MatchKind::LeftmostLongest` selects leftmost-longest match semantics and
/// `build` constructs the automaton over the given patterns in order. It
/// fails only when the patterns exceed the crate's internal size limits — a
/// deterministic function of the patterns, named `matcher_buildable`.
#[verifier::external_body]
fn build_matcher(patterns: &Vec<String>) -> (r: Option<aho_corasick::AhoCorasick>)
    ensures
        r is Some <==> matcher_buildable(patterns@.map_values(|p: String| p@)),
        r matches Some(ac) ==> matcher_patterns(ac) == patterns@.map_values(|p: String| p@)
            && matcher_leftmost_longest(ac),
{
    aho_corasick::AhoCorasick::builder()
        .match_kind(aho_corasick::MatchKind::LeftmostLongest)
        .build(patterns)
        .ok()
}

/// Relies on `aho_corasick::AhoCorasick::replace_all` and the documented
/// leftmost-longest match semantics: every non-overlapping leftmost match is
/// substituted with the entry at the matched pattern's index (the longest
/// occurrence wins; among duplicate patterns the one added first is
/// reported), scanning resumes after the matched text, and unmatched
/// characters are copied unchanged.
#[verifier::external_body]
fn matcher_replace_all(
    ac: &aho_corasick::AhoCorasick,
    haystack: &str,
    replacements: &Vec<String>,
) -> (r: String)
    requires
        matcher_leftmost_longest(*ac),
        replacements@.len() == matcher_patterns(*ac).len(),
        forall|j: int|
            0 <= j < matcher_patterns(*ac).len() ==> (#[trigger] matcher_patterns(*ac)[j]).len()
                > 0,
    ensures
        r@ == spec_replace(
            matcher_patterns(*ac),
            replacements@.map_values(|p: String| p@),
            haystack@,
        ),
{
    ac.replace_all(haystack, replacements.as_slice())
}

/// Rewrite the text under a pattern table: every leftmost-longest match of a
/// pattern is replaced by the replacement at the same index. A malformed
/// table is rejected; a well-formed one is refused exactly when the matcher
/// cannot be built over its patterns.
pub fn replace_all(haystack: &str, table: &PatternTable) -> (r: Option<String>)
    ensures
        r is Some <==> table.wf() && matcher_buildable(table.patterns_view()),
        r matches Some(out) ==> out@ == spec_replace(
            table.patterns_view(),
            table.replacements_view(),
            haystack@,
        ),
{
    if !table.is_wf() {
        return None;
    }
    match build_matcher(&table.patterns) {
        Option::Some(ac) => {
            assert(forall|j: int|
                0 <= j < matcher_patterns(ac).len() ==> (#[trigger] matcher_patterns(ac)[j]).len()
                    > 0) by {
                assert(forall|j: int|
                    0 <= j < table.patterns@.len() ==> matcher_patterns(ac)[j]
                        == (#[trigger] table.patterns@[j])@);
            }
            Some(matcher_replace_all(&ac, haystack, &table.replacements))
        },
        Option::None => None,
    }
}

/// Every spelling an identifier's pattern table searches for is non-empty.
pub open spec fn spellings_wf(ident: Seq<char>) -> bool {
    forall|j: int|
        0 <= j < spec_spellings(ident).len() ==> (#[trigger] spec_spellings(ident)[j]).len() > 0
}

/// Rewrite `input` so that every occurrence of the search identifier — in any
/// of its six case-convention spellings or verbatim — is replaced by the
/// replacement identifier rendered in the corresponding spelling, under
/// leftmost-longest precedence. The rewrite is refused exactly when the
/// search identifier has an empty spelling (one without a single word token)
/// or its spellings exceed the matcher's size limits.
pub fn replace_identifiers(search_term: &str, replacement_term: &str, input: &str) -> (r: Option<
    String,
>)
    ensures
        r is Some <==> spellings_wf(search_term@) && matcher_buildable(
            spec_spellings(search_term@),
        ),
        r matches Some(out) ==> out@ == spec_replace(
            spec_spellings(search_term@),
            spec_spellings(replacement_term@),
            input@,
        ),
{
    let table = build_pattern_table(search_term, replacement_term);
    let r = replace_all(input, &table);
    proof {
        assert(table.wf() <==> spellings_wf(search_term@)) by {
            assert(table.patterns@.len() == spec_spellings(search_term@).len());
            assert(table.replacements@.len() == spec_spellings(replacement_term@).len());
            if spellings_wf(search_term@) {
                assert forall|j: int|
                    0 <= j < table.patterns@.len() implies (#[trigger] table.patterns@[j])@.len()
                    > 0 by {
                    assert(table.patterns_view()[j] == table.patterns@[j]@);
                    assert(spec_spellings(search_term@)[j].len() > 0);
                }
            }
            if table.wf() {
                assert forall|j: int|
                    0 <= j < spec_spellings(search_term@).len() implies (#[trigger] spec_spellings(
                    search_term@,
                )[j]).len() > 0 by {
                    assert(table.patterns_view()[j] == table.patterns@[j]@);
                    assert(table.patterns@[j]@.len() > 0);
                }
            }
        }
    }
    r
}

} // verus!
