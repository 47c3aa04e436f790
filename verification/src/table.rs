use vstd::prelude::*;
use vstd::string::*;
use crate::tokens::spec_tokenize;
use crate::tokens::tokenize;
use crate::variants::generate_variants;
use crate::variants::spec_variants;

verus! {

/// Two parallel ordered lists: `patterns[i]` is an accepted spelling of the
/// search identifier and `replacements[i]` is the spelling of the replacement
/// identifier rendered under the same convention.
pub struct PatternTable {
    pub patterns: Vec<String>,
    pub replacements: Vec<String>,
}

impl PatternTable {
    /// The pattern spellings as character sequences.
    pub open spec fn patterns_view(self) -> Seq<Seq<char>> {
        self.patterns@.map_values(|p: String| p@)
    }

    /// The replacement spellings as character sequences.
    pub open spec fn replacements_view(self) -> Seq<Seq<char>> {
        self.replacements@.map_values(|p: String| p@)
    }

    /// A table the replacer accepts: the lists are parallel and no pattern is
    /// empty (an empty pattern would match at every position).
    pub open spec fn wf(self) -> bool {
        &&& self.patterns@.len() == self.replacements@.len()
        &&& forall|j: int|
            0 <= j < self.patterns@.len() ==> (#[trigger] self.patterns@[j])@.len() > 0
    }

    /// Runtime check of `wf`.
    pub fn is_wf(&self) -> (r: bool)
        ensures
            r == self.wf(),
    {
        if self.patterns.len() != self.replacements.len() {
            return false;
        }
        let n = self.patterns.len();
        let mut j: usize = 0;
        while j < n
            invariant
                n == self.patterns@.len(),
                j <= n,
                forall|m: int| 0 <= m < j ==> (#[trigger] self.patterns@[m])@.len() > 0,
            decreases n - j,
        {
            if self.patterns[j].as_str().is_empty() {
                assert(self.patterns@[j as int]@.len() == 0);
                return false;
            }
            j = j + 1;
        }
        true
    }
}

/// All accepted spellings of an identifier: the identifier verbatim, then its
/// six variants in the fixed convention order.
pub open spec fn spec_spellings(ident: Seq<char>) -> Seq<Seq<char>> {
    seq![ident] + spec_variants(spec_tokenize(ident))
}

/// The verbatim identifier followed by its six rendered variants.
fn spellings(ident: &str) -> (r: Vec<String>)
    ensures
        r@.map_values(|p: String| p@) == spec_spellings(ident@),
{
    let ghost svars = spec_variants(spec_tokenize(ident@));
    let toks = tokenize(ident);
    let variants = generate_variants(&toks);
    let mut out: Vec<String> = Vec::new();
    out.push(String::from_str(ident));
    assert(out@.map_values(|p: String| p@) =~= seq![ident@] + svars.take(0));
    let n = variants.len();
    let mut k: usize = 0;
    while k < n
        invariant
            n == variants@.len(),
            k <= n,
            variants@.map_values(|v: String| v@) == svars,
            out@.map_values(|p: String| p@) == seq![ident@] + svars.take(k as int),
        decreases n - k,
    {
        let ghost prev = out@.map_values(|p: String| p@);
        out.push(variants[k].clone());
        proof {
            assert(variants@[k as int]@ == svars[k as int]);
            assert(out@.map_values(|p: String| p@) =~= prev.push(svars[k as int]));
            assert(prev.push(svars[k as int]) =~= seq![ident@] + svars.take(k + 1));
        }
        k = k + 1;
    }
    proof {
        assert(svars.take(n as int) =~= svars);
    }
    out
}

/// Build the table that pairs every accepted spelling of the search
/// identifier with the same-convention spelling of the replacement
/// identifier: entry 0 is the verbatim pair, entries 1 to 6 hold the six
/// variants, matched positionally so that a match against spelling `i` is
/// always substituted with replacement spelling `i`.
pub fn build_pattern_table(search_term: &str, replacement_term: &str) -> (t: PatternTable)
    ensures
        t.patterns_view() == spec_spellings(search_term@),
        t.replacements_view() == spec_spellings(replacement_term@),
{
    let patterns = spellings(search_term);
    let replacements = spellings(replacement_term);
    PatternTable { patterns, replacements }
}

} // verus!
