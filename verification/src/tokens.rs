use vstd::prelude::*;
use vstd::string::*;
use crate::boundaries::boundary_set;
use crate::boundaries::find_boundary_indices;
use crate::boundaries::is_separator;
use crate::boundaries::is_separator_char;
use crate::boundaries::lemma_boundary_set;
use crate::boundaries::offsets_view;
use crate::boundaries::strictly_increasing;

verus! {

/// The substrings of `s` cut at each pair of consecutive boundary offsets.
pub open spec fn segments(s: Seq<char>, b: Seq<int>) -> Seq<Seq<char>> {
    Seq::new((b.len() - 1) as nat, |k: int| s.subrange(b[k], b[k + 1]))
}

/// A segment whose entire content is a single separator character.
pub open spec fn is_separator_segment(t: Seq<char>) -> bool {
    t.len() == 1 && is_separator(t[0])
}

/// Remove the segments that consist of exactly one separator character,
/// keeping everything else in order.
pub open spec fn drop_separator_segments(segs: Seq<Seq<char>>) -> Seq<Seq<char>>
    decreases segs.len(),
{
    if segs.len() == 0 {
        Seq::empty()
    } else if is_separator_segment(segs.last()) {
        drop_separator_segments(segs.drop_last())
    } else {
        drop_separator_segments(segs.drop_last()).push(segs.last())
    }
}

/// The ordered word tokens of an identifier: the substrings between
/// consecutive boundaries, with the bare separator segments removed.
pub open spec fn spec_tokenize(s: Seq<char>) -> Seq<Seq<char>> {
    drop_separator_segments(segments(s, boundary_set(s)))
}

/// The characters of `s` that are not separators, in order.
pub open spec fn strip_separators(s: Seq<char>) -> Seq<char>
    decreases s.len(),
{
    if s.len() == 0 {
        Seq::empty()
    } else if is_separator(s.last()) {
        strip_separators(s.drop_last())
    } else {
        strip_separators(s.drop_last()).push(s.last())
    }
}

/// A sequence of characters with no separator among them.
pub open spec fn separator_free(t: Seq<char>) -> bool {
    forall|j: int| 0 <= j < t.len() ==> !is_separator(#[trigger] t[j])
}

/// Appending a separator character does not change the stripped sequence.
proof fn lemma_strip_push_separator(u: Seq<char>, c: char)
    requires
        is_separator(c),
    ensures
        strip_separators(u.push(c)) == strip_separators(u),
{
    assert(u.push(c).last() == c);
    assert(u.push(c).drop_last() =~= u);
}

/// Appending separator-free characters appends them to the stripped sequence.
proof fn lemma_strip_append_separator_free(u: Seq<char>, w: Seq<char>)
    requires
        separator_free(w),
    ensures
        strip_separators(u + w) == strip_separators(u) + w,
    decreases w.len(),
{
    if w.len() == 0 {
        assert(u + w =~= u);
        assert(strip_separators(u) + w =~= strip_separators(u));
    } else {
        let w0 = w.drop_last();
        assert(separator_free(w0));
        lemma_strip_append_separator_free(u, w0);
        assert(!is_separator(w[w.len() - 1]));
        assert((u + w).last() == w.last());
        assert(!is_separator((u + w).last()));
        assert((u + w).drop_last() =~= u + w0);
        assert(strip_separators(u + w) == strip_separators(u + w0).push(w.last()));
        assert(strip_separators(u) + w =~= (strip_separators(u) + w0).push(w.last()));
    }
}

/// A separator character's offset and the offset after it are both boundaries.
proof fn lemma_separator_bracketed(s: Seq<char>, p: int)
    requires
        0 <= p < s.len(),
        is_separator(s[p]),
    ensures
        boundary_set(s).contains(p),
        boundary_set(s).contains(p + 1),
{
    lemma_boundary_set(s);
}

/// Between two consecutive boundaries of an identifier lies either a single
/// separator character or a stretch with no separator in it.
proof fn lemma_segments_shape(s: Seq<char>)
    ensures
        forall|j: int| 0 <= j < boundary_set(s).len() - 1 ==> is_separator_segment(
            #[trigger] segments(s, boundary_set(s))[j],
        ) || separator_free(segments(s, boundary_set(s))[j]),
{
    let b = boundary_set(s);
    lemma_boundary_set(s);
    assert forall|j: int| 0 <= j < b.len() - 1 implies is_separator_segment(
        #[trigger] segments(s, b)[j],
    ) || separator_free(segments(s, b)[j]) by {
        let seg = segments(s, b)[j];
        assert(seg == s.subrange(b[j], b[j + 1]));
        if !separator_free(seg) {
            let ci = choose|ci: int| 0 <= ci < seg.len() && is_separator(seg[ci]);
            let p = b[j] + ci;
            assert(0 <= b[j]) by {
                if j > 0 {
                    assert(b[0] < b[j]);
                }
            }
            assert(b[j + 1] <= s.len()) by {
                if j + 1 < b.len() - 1 {
                    assert(b[j + 1] < b[b.len() - 1]);
                }
            }
            assert(seg[ci] == s[p]);
            assert(is_separator(s[p]));
            assert(0 <= p < s.len());
            lemma_separator_bracketed(s, p);
            assert(b.contains(p) && b.contains(p + 1));
            let m1 = choose|m: int| 0 <= m < b.len() && b[m] == p;
            assert(m1 == j) by {
                if m1 < j {
                    assert(b[m1] < b[j]);
                }
                if m1 > j {
                    if m1 > j + 1 {
                        assert(b[j + 1] < b[m1]);
                    }
                }
            }
            let m2 = choose|m: int| 0 <= m < b.len() && b[m] == p + 1;
            assert(m2 == j + 1) by {
                if m2 < j + 1 {
                    if m2 < j {
                        assert(b[m2] < b[j]);
                    }
                }
                if m2 > j + 1 {
                    assert(b[j + 1] < b[m2]);
                }
            }
            assert(seg =~= seq![s[p]]);
        }
    }
}

/// The stripped prefix of the identifier up to boundary `k` equals the
/// concatenation of the tokens cut from that prefix.
#[verifier::rlimit(50)]
proof fn lemma_tokens_cover_rec(s: Seq<char>, b: Seq<int>, k: int)
    requires
        b.len() >= 1,
        strictly_increasing(b),
        0 <= b[0],
        b.last() <= s.len(),
        0 <= k < b.len(),
        forall|j: int| 0 <= j < b.len() - 1 ==> is_separator_segment(
            #[trigger] segments(s, b)[j],
        ) || separator_free(segments(s, b)[j]),
    ensures
        drop_separator_segments(segments(s, b).take(k)).flatten() == strip_separators(
            s.subrange(b[0], b[k]),
        ),
    decreases k,
{
    broadcast use Seq::lemma_flatten_push;

    let segs = segments(s, b);
    if k == 0 {
        assert(segs.take(0) =~= Seq::<Seq<char>>::empty());
        assert(s.subrange(b[0], b[0]) =~= Seq::<char>::empty());
        assert(drop_separator_segments(segs.take(0)).flatten() =~= Seq::<char>::empty());
    } else {
        lemma_tokens_cover_rec(s, b, k - 1);
        let seg = segs[k - 1];
        assert(b[k - 1] < b[k] && b[k] <= b.last() <= s.len()) by {
            if k < b.len() - 1 {
                assert(b[k] < b[b.len() - 1]);
            }
        }
        assert(segs.take(k).drop_last() =~= segs.take(k - 1));
        assert(segs.take(k).last() == seg);
        assert(s.subrange(b[0], b[k]) =~= s.subrange(b[0], b[k - 1]) + seg);
        if is_separator_segment(seg) {
            assert(drop_separator_segments(segs.take(k)) == drop_separator_segments(
                segs.take(k - 1),
            ));
            assert(s.subrange(b[0], b[k]) =~= s.subrange(b[0], b[k - 1]).push(seg[0]));
            lemma_strip_push_separator(s.subrange(b[0], b[k - 1]), seg[0]);
        } else {
            assert(separator_free(seg));
            assert(drop_separator_segments(segs.take(k)) == drop_separator_segments(
                segs.take(k - 1),
            ).push(seg));
            lemma_strip_append_separator_free(s.subrange(b[0], b[k - 1]), seg);
        }
    }
}

/// Token coverage: concatenating the tokens of an identifier reproduces the
/// identifier with its separator characters removed — every non-separator
/// character is kept, exactly once and in order.
pub proof fn lemma_tokens_cover(s: Seq<char>)
    ensures
        spec_tokenize(s).flatten() == strip_separators(s),
{
    let b = boundary_set(s);
    lemma_boundary_set(s);
    lemma_segments_shape(s);
    lemma_tokens_cover_rec(s, b, b.len() - 1);
    assert(segments(s, b).take(b.len() - 1) =~= segments(s, b));
    assert(s.subrange(b[0], b[b.len() - 1]) =~= s);
}

/// Every token of an identifier is non-empty and contains no separator.
pub proof fn lemma_tokens_wf(s: Seq<char>)
    ensures
        forall|j: int| 0 <= j < spec_tokenize(s).len() ==> (#[trigger] spec_tokenize(
            s,
        )[j]).len() >= 1 && separator_free(spec_tokenize(s)[j]),
{
    let b = boundary_set(s);
    lemma_boundary_set(s);
    lemma_segments_shape(s);
    assert(forall|j: int| 0 <= j < b.len() - 1 ==> (#[trigger] segments(s, b)[j]).len() >= 1);
    lemma_drop_separator_elements(segments(s, b));
}

/// Dropping the bare separator segments keeps only non-empty, separator-free
/// segments, provided every segment is a single separator or separator-free.
proof fn lemma_drop_separator_elements(segs: Seq<Seq<char>>)
    requires
        forall|j: int| 0 <= j < segs.len() ==> (#[trigger] segs[j]).len() >= 1,
        forall|j: int| 0 <= j < segs.len() ==> is_separator_segment(#[trigger] segs[j])
            || separator_free(segs[j]),
    ensures
        forall|j: int| 0 <= j < drop_separator_segments(segs).len() ==> (
        #[trigger] drop_separator_segments(segs)[j]).len() >= 1 && separator_free(
            drop_separator_segments(segs)[j],
        ),
    decreases segs.len(),
{
    if segs.len() > 0 {
        assert(forall|j: int| 0 <= j < segs.len() - 1 ==> segs.drop_last()[j] == #[trigger] segs[j]);
        lemma_drop_separator_elements(segs.drop_last());
        if !is_separator_segment(segs.last()) {
            let r = drop_separator_segments(segs);
            let r0 = drop_separator_segments(segs.drop_last());
            assert(forall|j: int| 0 <= j < r0.len() ==> r[j] == #[trigger] r0[j]);
            assert(r.last() == segs.last());
            assert(!is_separator_segment(segs[segs.len() - 1]));
        }
    }
}

/// Split an identifier into its word tokens: each token keeps its original
/// casing, and segments that are exactly one separator character are dropped.
pub fn tokenize(s: &str) -> (r: Vec<String>)
    ensures
        r@.map_values(|t: String| t@) == spec_tokenize(s@),
{
    let b = find_boundary_indices(s);
    proof {
        lemma_boundary_set(s@);
    }
    let ghost bs = offsets_view(b@);
    let ghost segs = segments(s@, bs);
    let nb = b.len();
    let mut tokens: Vec<String> = Vec::new();
    let mut k: usize = 0;
    assert(tokens@.map_values(|t: String| t@) =~= drop_separator_segments(segs.take(0)));
    while k + 1 < nb
        invariant
            nb == b@.len(),
            nb >= 1,
            k <= nb - 1,
            bs == offsets_view(b@),
            bs == boundary_set(s@),
            segs == segments(s@, bs),
            strictly_increasing(bs),
            bs.last() == s@.len(),
            tokens@.map_values(|t: String| t@) == drop_separator_segments(segs.take(k as int)),
        decreases nb - k,
    {
        let start = b[k];
        let end = b[k + 1];
        proof {
            assert(bs[k as int] == start as int && bs[k + 1] == end as int);
            assert(bs[k + 1] <= bs[nb - 1]);
        }
        let val = s.substring_char(start, end);
        let sep_segment = val.unicode_len() == 1 && is_separator_char(val.get_char(0));
        let ghost old_tokens = tokens@.map_values(|t: String| t@);
        if !sep_segment {
            tokens.push(String::from_str(val));
        }
        proof {
            assert(segs.take(k + 1).drop_last() =~= segs.take(k as int));
            assert(segs.take(k + 1).last() == val@);
            assert(sep_segment == is_separator_segment(val@));
            if !sep_segment {
                assert(tokens@.map_values(|t: String| t@) =~= old_tokens.push(val@));
            }
        }
        k = k + 1;
    }
    proof {
        assert(segs.take(k as int) =~= segs);
    }
    tokens
}

} // verus!

