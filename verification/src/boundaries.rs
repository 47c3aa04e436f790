use vstd::prelude::*;
use vstd::string::*;
use crate::unicode::char_is_upper;
use crate::unicode::is_uppercase_char;

verus! {

/// The two explicit separator characters that may appear in an identifier
/// written in snake_case, kebab-case or Title_Case.
pub open spec fn is_separator(c: char) -> bool {
    c == '_' || c == '-'
}

/// Executable check for a separator character.
pub fn is_separator_char(c: char) -> (r: bool)
    ensures
        r == is_separator(c),
{
    c == '_' || c == '-'
}

/// Append `x` to an ascending boundary sequence, unless it would repeat the
/// last entry; keeps the sequence strictly increasing.
pub open spec fn push_bound(b: Seq<int>, x: int) -> Seq<int> {
    if b.len() > 0 && b.last() == x {
        b
    } else {
        b.push(x)
    }
}

/// Whether the character at offset `i` sits on a case transition: the next
/// character exists, is not a separator, and differs from `s[i]` in its
/// uppercase classification.
pub open spec fn case_change_at(s: Seq<char>, i: int) -> bool {
    &&& i + 1 < s.len()
    &&& !is_separator(s[i + 1])
    &&& char_is_upper(s[i + 1]) != char_is_upper(s[i])
}

/// One step of the boundary scan at offset `i`: a separator is bracketed by a
/// boundary on each side; a case transition puts the boundary before the
/// current character when leaving an uppercase run (so `HTTPVerb` splits into
/// `HTTP`/`Verb`) and after it when entering one (so `aC` splits into `a`/`C`).
pub open spec fn scan_step(s: Seq<char>, i: int, b: Seq<int>) -> Seq<int> {
    if is_separator(s[i]) {
        push_bound(push_bound(b, i), i + 1)
    } else if case_change_at(s, i) {
        if char_is_upper(s[i]) {
            push_bound(b, i)
        } else {
            push_bound(b, i + 1)
        }
    } else {
        b
    }
}

/// The boundary scan from offset `i` onward, starting from the boundaries `b`
/// already emitted; ends by emitting the end-of-string boundary.
pub open spec fn scan_from(s: Seq<char>, i: int, b: Seq<int>) -> Seq<int>
    decreases s.len() - i,
    when 0 <= i <= s.len()
{
    if i >= s.len() {
        push_bound(b, s.len() as int)
    } else {
        scan_from(s, i + 1, scan_step(s, i, b))
    }
}

/// The ordered set of character offsets at which a new token begins, with the
/// start and end of the identifier always included.
pub open spec fn boundary_set(s: Seq<char>) -> Seq<int> {
    scan_from(s, 0, seq![0int])
}

/// A strictly increasing sequence of integers.
pub open spec fn strictly_increasing(b: Seq<int>) -> bool {
    forall|j: int, k: int| 0 <= j < k < b.len() ==> b[j] < b[k]
}

/// `push_bound` keeps an ascending boundary sequence strictly increasing and
/// ends it with `x`; earlier entries and membership are preserved.
proof fn lemma_push_bound(b: Seq<int>, x: int)
    requires
        b.len() >= 1,
        strictly_increasing(b),
        b.last() <= x,
    ensures
        push_bound(b, x).len() >= 1,
        strictly_increasing(push_bound(b, x)),
        push_bound(b, x).last() == x,
        push_bound(b, x)[0] == b[0],
        push_bound(b, x).contains(x),
        forall|v: int| b.contains(v) ==> #[trigger] push_bound(b, x).contains(v),
        forall|v: int| #[trigger] push_bound(b, x).contains(v) ==> b.contains(v) || v == x,
{
    let r = push_bound(b, x);
    if b.last() == x {
        assert(b.contains(x)) by {
            assert(b[b.len() - 1] == x);
        }
    } else {
        assert(r == b.push(x));
        assert forall|j: int, k: int| 0 <= j < k < r.len() implies r[j] < r[k] by {
            if k < b.len() {
                assert(b[j] < b[k]);
            } else {
                assert(r[k] == x);
                if j < b.len() - 1 {
                    assert(b[j] < b[b.len() - 1]);
                }
            }
        }
        assert(r.contains(x)) by {
            assert(r[r.len() - 1] == x);
        }
        assert forall|v: int| b.contains(v) implies #[trigger] r.contains(v) by {
            let j = choose|j: int| 0 <= j < b.len() && b[j] == v;
            assert(r[j] == v);
        }
        assert forall|v: int| #[trigger] r.contains(v) implies b.contains(v) || v == x by {
            let j = choose|j: int| 0 <= j < r.len() && r[j] == v;
            if j < b.len() {
                assert(b[j] == v);
            }
        }
    }
}

/// The scan's accumulator invariant: starting from a well-formed prefix of
/// boundaries below `i`, the finished scan is strictly increasing, starts
/// where the prefix starts, ends at the string's length, and brackets every
/// separator position with a boundary on each side.
proof fn lemma_scan_from(s: Seq<char>, i: int, b: Seq<int>)
    requires
        0 <= i <= s.len(),
        b.len() >= 1,
        strictly_increasing(b),
        b.last() <= i,
        forall|p: int|
            0 <= p < i && is_separator(#[trigger] s[p]) ==> b.contains(p) && b.contains(p + 1),
    ensures
        scan_from(s, i, b).len() >= 1,
        strictly_increasing(scan_from(s, i, b)),
        scan_from(s, i, b)[0] == b[0],
        scan_from(s, i, b).last() == s.len(),
        forall|v: int| b.contains(v) ==> #[trigger] scan_from(s, i, b).contains(v),
        forall|v: int|
            #[trigger] scan_from(s, i, b).contains(v) ==> b.contains(v) || (i <= v <= s.len()),
        forall|p: int|
            0 <= p < s.len() && is_separator(#[trigger] s[p]) ==> scan_from(s, i, b).contains(p)
                && scan_from(s, i, b).contains(p + 1),
    decreases s.len() - i,
{
    if i >= s.len() {
        lemma_push_bound(b, s.len() as int);
    } else {
        let b2 = scan_step(s, i, b);
        if is_separator(s[i]) {
            lemma_push_bound(b, i);
            lemma_push_bound(push_bound(b, i), i + 1);
        } else if case_change_at(s, i) {
            if char_is_upper(s[i]) {
                lemma_push_bound(b, i);
            } else {
                lemma_push_bound(b, i + 1);
            }
        }
        assert forall|p: int|
            0 <= p < i + 1 && is_separator(#[trigger] s[p]) implies b2.contains(p) && b2.contains(
            p + 1,
        ) by {
            if p < i {
                assert(b.contains(p) && b.contains(p + 1));
            }
        }
        lemma_scan_from(s, i + 1, b2);
    }
}

/// The boundary set of any identifier is strictly increasing, starts at
/// offset `0`, ends at the identifier's character length, and brackets every
/// separator character with a boundary on each side of it.
pub proof fn lemma_boundary_set(s: Seq<char>)
    ensures
        boundary_set(s).len() >= 1,
        strictly_increasing(boundary_set(s)),
        boundary_set(s)[0] == 0,
        boundary_set(s).last() == s.len(),
        forall|p: int|
            0 <= p < s.len() && is_separator(#[trigger] s[p]) ==> boundary_set(s).contains(p)
                && boundary_set(s).contains(p + 1),
        forall|v: int| #[trigger] boundary_set(s).contains(v) ==> 0 <= v <= s.len(),
{
    let b0 = seq![0int];
    lemma_scan_from(s, 0, b0);
    assert forall|v: int| #[trigger] boundary_set(s).contains(v) implies 0 <= v <= s.len() by {
        if b0.contains(v) {
            let j = choose|j: int| 0 <= j < b0.len() && b0[j] == v;
            assert(v == 0);
        }
    }
}

/// The view of a vector of offsets as a sequence of integers.
pub open spec fn offsets_view(b: Seq<usize>) -> Seq<int> {
    b.map_values(|u: usize| u as int)
}

/// Append an offset unless it repeats the last one, mirroring `push_bound`.
fn push_boundary(b: &mut Vec<usize>, x: usize)
    ensures
        offsets_view(final(b)@) == push_bound(offsets_view(old(b)@), x as int),
{
    let n = b.len();
    if n == 0 {
        b.push(x);
        assert(offsets_view(b@) =~= push_bound(offsets_view(old(b)@), x as int));
    } else {
        let last = b[n - 1];
        assert(offsets_view(old(b)@).last() == last as int);
        if last != x {
            b.push(x);
            assert(offsets_view(b@) =~= push_bound(offsets_view(old(b)@), x as int));
        }
    }
}

/// Scan the identifier and return every offset at which a new token begins,
/// in increasing order, with `0` first and the character length last.
pub fn find_boundary_indices(s: &str) -> (r: Vec<usize>)
    ensures
        offsets_view(r@) == boundary_set(s@),
{
    let n = s.unicode_len();
    let mut b: Vec<usize> = Vec::new();
    b.push(0);
    assert(offsets_view(b@) =~= seq![0int]);
    let mut i: usize = 0;
    while i < n
        invariant
            n == s@.len(),
            i <= n,
            scan_from(s@, i as int, offsets_view(b@)) == boundary_set(s@),
        decreases n - i,
    {
        let ghost b_in = offsets_view(b@);
        let c = s.get_char(i);
        if is_separator_char(c) {
            push_boundary(&mut b, i);
            push_boundary(&mut b, i + 1);
        } else if i + 1 < n {
            let d = s.get_char(i + 1);
            let change = !is_separator_char(d)
                && (is_uppercase_char(d) != is_uppercase_char(c));
            if change {
                if is_uppercase_char(c) {
                    push_boundary(&mut b, i);
                } else {
                    push_boundary(&mut b, i + 1);
                }
            }
        }
        assert(offsets_view(b@) == scan_step(s@, i as int, b_in));
        i = i + 1;
    }
    push_boundary(&mut b, n);
    assert(offsets_view(b@) == boundary_set(s@));
    b
}

} // verus!

