use vstd::prelude::*;
use vstd::string::*;
use crate::unicode::grapheme_clusters;
use crate::unicode::graphemes_of;
use crate::unicode::lower_of;
use crate::unicode::lowercase;
use crate::unicode::upper_of;
use crate::unicode::uppercase;

verus! {

/// One atomic capitalization rule; a rendering strategy combines one or more
/// of them with a joiner string.
#[derive(Clone, Copy, PartialEq, Eq, Structural, Debug)]
pub enum CapitalizationStrategy {
    FirstTokenCapitalized,
    RestTokensCapitalized,
    AllCharactersCapitalized,
    NoCharactersCapitalized,
}

/// How a token sequence is rendered: which tokens get a capital, and what is
/// inserted between tokens.
pub struct Strategy {
    pub joiner: String,
    pub capitalization: Vec<CapitalizationStrategy>,
}

impl Strategy {
    /// "Capitalize nothing" contradicts every other rule, so it must stand
    /// alone in a strategy.
    pub open spec fn wf(self) -> bool {
        self.capitalization@.contains(CapitalizationStrategy::NoCharactersCapitalized)
            ==> self.capitalization@.len() == 1
    }

    /// Reject the contradictory combination of "capitalize nothing" with any
    /// other rule.
    pub fn is_valid(&self) -> (r: bool)
        ensures
            r == self.wf(),
    {
        !contains_rule(&self.capitalization, CapitalizationStrategy::NoCharactersCapitalized)
            || self.capitalization.len() == 1
    }
}

/// Whether a set of rules asks for a leading capital on a grapheme cluster:
/// either every cluster is capitalized, or this is the token's first cluster
/// and the token's position selects a first-letter rule.
pub open spec fn cluster_upper(
    caps: Seq<CapitalizationStrategy>,
    first_token: bool,
    first_cluster: bool,
) -> bool {
    ||| caps.contains(CapitalizationStrategy::AllCharactersCapitalized)
    ||| (first_cluster && ((caps.contains(CapitalizationStrategy::FirstTokenCapitalized)
        && first_token) || (caps.contains(CapitalizationStrategy::RestTokensCapitalized)
        && !first_token)))
}

/// Render the grapheme clusters of one token from cluster `k` onward: each
/// cluster is mapped to uppercase or lowercase as the rules demand.
pub open spec fn render_clusters(
    gs: Seq<Seq<char>>,
    caps: Seq<CapitalizationStrategy>,
    first_token: bool,
    k: int,
) -> Seq<char>
    decreases gs.len() - k,
    when 0 <= k
{
    if k >= gs.len() {
        Seq::empty()
    } else {
        let up = !caps.contains(CapitalizationStrategy::NoCharactersCapitalized)
            && cluster_upper(caps, first_token, k == 0);
        (if up {
            upper_of(gs[k])
        } else {
            lower_of(gs[k])
        }) + render_clusters(gs, caps, first_token, k + 1)
    }
}

/// Render one token under a set of capitalization rules.
pub open spec fn render_token(
    t: Seq<char>,
    caps: Seq<CapitalizationStrategy>,
    first_token: bool,
) -> Seq<char> {
    render_clusters(graphemes_of(t), caps, first_token, 0)
}

/// Render the tokens from index `k` onward, inserting the joiner between
/// tokens but never after the last one.
pub open spec fn render_tokens_from(
    toks: Seq<Seq<char>>,
    caps: Seq<CapitalizationStrategy>,
    joiner: Seq<char>,
    k: int,
) -> Seq<char>
    decreases toks.len() - k,
    when 0 <= k
{
    if k >= toks.len() {
        Seq::empty()
    } else if k == toks.len() - 1 {
        render_token(toks[k], caps, k == 0)
    } else {
        render_token(toks[k], caps, k == 0) + joiner + render_tokens_from(toks, caps, joiner, k + 1)
    }
}

/// Render a whole token sequence under a capitalization rule set and joiner.
pub open spec fn render(
    toks: Seq<Seq<char>>,
    caps: Seq<CapitalizationStrategy>,
    joiner: Seq<char>,
) -> Seq<char> {
    render_tokens_from(toks, caps, joiner, 0)
}

/// The rule set of camelCase: capitalize the first letter of every token but
/// the first.
pub open spec fn camel_caps() -> Seq<CapitalizationStrategy> {
    seq![CapitalizationStrategy::RestTokensCapitalized]
}

/// The rule set of PascalCase and Title_Case: capitalize every token's first
/// letter.
pub open spec fn pascal_caps() -> Seq<CapitalizationStrategy> {
    seq![
        CapitalizationStrategy::FirstTokenCapitalized,
        CapitalizationStrategy::RestTokensCapitalized,
    ]
}

/// The rule set of snake_case and kebab-case: lowercase everything.
pub open spec fn lower_caps() -> Seq<CapitalizationStrategy> {
    seq![CapitalizationStrategy::NoCharactersCapitalized]
}

/// The rule set of CONSTANT_CASE: capitalize every character.
pub open spec fn constant_caps() -> Seq<CapitalizationStrategy> {
    seq![CapitalizationStrategy::AllCharactersCapitalized]
}

/// The six renderings of a token sequence, in the fixed order camelCase,
/// PascalCase, snake_case, kebab-case, Title_Case, CONSTANT_CASE.
pub open spec fn spec_variants(toks: Seq<Seq<char>>) -> Seq<Seq<char>> {
    seq![
        render(toks, camel_caps(), Seq::empty()),
        render(toks, pascal_caps(), Seq::empty()),
        render(toks, lower_caps(), seq!['_']),
        render(toks, lower_caps(), seq!['-']),
        render(toks, pascal_caps(), seq!['_']),
        render(toks, constant_caps(), seq!['_']),
    ]
}

/// Whether a rule occurs in a strategy's rule list.
fn contains_rule(caps: &Vec<CapitalizationStrategy>, rule: CapitalizationStrategy) -> (r: bool)
    ensures
        r == caps@.contains(rule),
{
    let n = caps.len();
    let mut k: usize = 0;
    while k < n
        invariant
            n == caps@.len(),
            k <= n,
            forall|j: int| 0 <= j < k ==> caps@[j] != rule,
        decreases n - k,
    {
        if caps[k] == rule {
            assert(caps@[k as int] == rule);
            return true;
        }
        k = k + 1;
    }
    false
}

/// Render one token, cluster by cluster.
fn render_token_exec(token: &str, caps: &Vec<CapitalizationStrategy>, first_token: bool) -> (r:
    String)
    ensures
        r@ == render_token(token@, caps@, first_token),
{
    let no_chars = contains_rule(caps, CapitalizationStrategy::NoCharactersCapitalized);
    let all_chars = contains_rule(caps, CapitalizationStrategy::AllCharactersCapitalized);
    let first_tok_rule = contains_rule(caps, CapitalizationStrategy::FirstTokenCapitalized);
    let rest_rule = contains_rule(caps, CapitalizationStrategy::RestTokensCapitalized);
    let gs = grapheme_clusters(token);
    let ghost gspec = graphemes_of(token@);
    let n = gs.len();
    let mut out = String::new();
    let mut k: usize = 0;
    while k < n
        invariant
            n == gs@.len(),
            k <= n,
            gs@.map_values(|g: String| g@) == gspec,
            no_chars == caps@.contains(CapitalizationStrategy::NoCharactersCapitalized),
            all_chars == caps@.contains(CapitalizationStrategy::AllCharactersCapitalized),
            first_tok_rule == caps@.contains(CapitalizationStrategy::FirstTokenCapitalized),
            rest_rule == caps@.contains(CapitalizationStrategy::RestTokensCapitalized),
            render_clusters(gspec, caps@, first_token, 0) == out@ + render_clusters(
                gspec,
                caps@,
                first_token,
                k as int,
            ),
        decreases n - k,
    {
        let up = !no_chars && (all_chars || ((k == 0) && ((first_tok_rule && first_token) || (
        rest_rule && !first_token))));
        let piece = if up {
            uppercase(gs[k].as_str())
        } else {
            lowercase(gs[k].as_str())
        };
        proof {
            assert(gspec[k as int] == gs@[k as int]@);
            assert(up == (!caps@.contains(CapitalizationStrategy::NoCharactersCapitalized)
                && cluster_upper(caps@, first_token, k == 0)));
            assert(render_clusters(gspec, caps@, first_token, k as int) == piece@
                + render_clusters(gspec, caps@, first_token, k + 1));
            assert((out@ + piece@) + render_clusters(gspec, caps@, first_token, k + 1) =~= out@ + (
            piece@ + render_clusters(gspec, caps@, first_token, k + 1)));
        }
        out.append(piece.as_str());
        k = k + 1;
    }
    assert(render_clusters(gspec, caps@, first_token, k as int) =~= Seq::<char>::empty());
    assert(out@ + Seq::<char>::empty() =~= out@);
    out
}

/// Render a whole token sequence under a well-formed strategy.
fn render_with(strategy: &Strategy, tokens: &Vec<String>) -> (r: String)
    requires
        strategy.wf(),
    ensures
        r@ == render(
            tokens@.map_values(|t: String| t@),
            strategy.capitalization@,
            strategy.joiner@,
        ),
{
    let ghost toks = tokens@.map_values(|t: String| t@);
    let ghost caps = strategy.capitalization@;
    let ghost joiner = strategy.joiner@;
    let n = tokens.len();
    let mut out = String::new();
    let mut idx: usize = 0;
    while idx < n
        invariant
            n == tokens@.len(),
            idx <= n,
            toks == tokens@.map_values(|t: String| t@),
            caps == strategy.capitalization@,
            joiner == strategy.joiner@,
            render(toks, caps, joiner) == out@ + render_tokens_from(toks, caps, joiner, idx as int),
        decreases n - idx,
    {
        let ghost out0 = out@;
        let ghost rest = render_tokens_from(toks, caps, joiner, idx + 1);
        let piece = render_token_exec(tokens[idx].as_str(), &strategy.capitalization, idx == 0);
        proof {
            assert(toks[idx as int] == tokens@[idx as int]@);
        }
        out.append(piece.as_str());
        if idx + 1 < n {
            out.append(strategy.joiner.as_str());
            proof {
                assert(render_tokens_from(toks, caps, joiner, idx as int) == piece@ + joiner
                    + rest);
                assert(out0 + (piece@ + joiner + rest) =~= ((out0 + piece@) + joiner) + rest);
            }
        } else {
            proof {
                assert(render_tokens_from(toks, caps, joiner, idx as int) == piece@);
                assert(rest =~= Seq::<char>::empty());
                assert(out0 + (piece@ + rest) =~= (out0 + piece@) + rest);
            }
        }
        idx = idx + 1;
    }
    proof {
        assert(render_tokens_from(toks, caps, joiner, idx as int) =~= Seq::<char>::empty());
        assert(out@ + Seq::<char>::empty() =~= out@);
    }
    out
}

/// Render a token sequence under a strategy, or report the configuration
/// error: a strategy combining "capitalize nothing" with another rule is
/// rejected, every well-formed strategy is rendered.
pub fn apply_strategy(strategy: &Strategy, tokens: &Vec<String>) -> (r: Option<String>)
    ensures
        r is Some <==> strategy.wf(),
        r matches Some(out) ==> out@ == render(
            tokens@.map_values(|t: String| t@),
            strategy.capitalization@,
            strategy.joiner@,
        ),
{
    if strategy.is_valid() {
        Some(render_with(strategy, tokens))
    } else {
        None
    }
}

/// Render a token sequence under each of the six supported conventions, in
/// the fixed order camelCase, PascalCase, snake_case, kebab-case, Title_Case,
/// CONSTANT_CASE.
pub fn generate_variants(tokens: &Vec<String>) -> (r: Vec<String>)
    ensures
        r@.len() == 6,
        r@.map_values(|v: String| v@) == spec_variants(tokens@.map_values(|t: String| t@)),
{
    let ghost toks = tokens@.map_values(|t: String| t@);
    let mut results: Vec<String> = Vec::new();

    let underscore = String::from_str("_");
    let dash = String::from_str("-");
    proof {
        reveal_strlit("_");
        reveal_strlit("-");
        assert(underscore@ =~= seq!['_']);
        assert(dash@ =~= seq!['-']);
    }

    let mut camel_rules: Vec<CapitalizationStrategy> = Vec::new();
    camel_rules.push(CapitalizationStrategy::RestTokensCapitalized);
    let camel = Strategy { joiner: String::new(), capitalization: camel_rules };
    proof {
        assert(camel.capitalization@ =~= camel_caps());
    }
    results.push(render_with(&camel, tokens));

    let mut pascal_rules: Vec<CapitalizationStrategy> = Vec::new();
    pascal_rules.push(CapitalizationStrategy::FirstTokenCapitalized);
    pascal_rules.push(CapitalizationStrategy::RestTokensCapitalized);
    let pascal = Strategy { joiner: String::new(), capitalization: pascal_rules };
    proof {
        assert(pascal.capitalization@ =~= pascal_caps());
        assert(pascal.wf()) by {
            assert(forall|j: int|
                0 <= j < pascal_caps().len() ==> pascal_caps()[j]
                    != CapitalizationStrategy::NoCharactersCapitalized);
        }
    }
    results.push(render_with(&pascal, tokens));

    let mut snake_rules: Vec<CapitalizationStrategy> = Vec::new();
    snake_rules.push(CapitalizationStrategy::NoCharactersCapitalized);
    let snake = Strategy { joiner: underscore, capitalization: snake_rules };
    proof {
        assert(snake.capitalization@ =~= lower_caps());
    }
    results.push(render_with(&snake, tokens));

    let mut kebab_rules: Vec<CapitalizationStrategy> = Vec::new();
    kebab_rules.push(CapitalizationStrategy::NoCharactersCapitalized);
    let kebab = Strategy { joiner: dash, capitalization: kebab_rules };
    proof {
        assert(kebab.capitalization@ =~= lower_caps());
    }
    results.push(render_with(&kebab, tokens));

    let underscore2 = String::from_str("_");
    let mut title_rules: Vec<CapitalizationStrategy> = Vec::new();
    title_rules.push(CapitalizationStrategy::FirstTokenCapitalized);
    title_rules.push(CapitalizationStrategy::RestTokensCapitalized);
    let title = Strategy { joiner: underscore2, capitalization: title_rules };
    proof {
        reveal_strlit("_");
        assert(title.joiner@ =~= seq!['_']);
        assert(title.capitalization@ =~= pascal_caps());
        assert(title.wf()) by {
            assert(forall|j: int|
                0 <= j < pascal_caps().len() ==> pascal_caps()[j]
                    != CapitalizationStrategy::NoCharactersCapitalized);
        }
    }
    results.push(render_with(&title, tokens));

    let underscore3 = String::from_str("_");
    let mut constant_rules: Vec<CapitalizationStrategy> = Vec::new();
    constant_rules.push(CapitalizationStrategy::AllCharactersCapitalized);
    let constant = Strategy { joiner: underscore3, capitalization: constant_rules };
    proof {
        reveal_strlit("_");
        assert(constant.joiner@ =~= seq!['_']);
        assert(constant.capitalization@ =~= constant_caps());
    }
    results.push(render_with(&constant, tokens));

    proof {
        assert(results@.map_values(|v: String| v@) =~= spec_variants(toks));
    }
    results
}

} // verus!
