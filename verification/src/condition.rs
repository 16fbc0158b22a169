//! Translating platform constraints (target triples and cfg expressions) into
//! boolean condition strings of the output build language.
//!
//! Conjunctions and disjunctions are rendered with their operands
//! parenthesized, sorted and deduplicated, so that the rendered text does not
//! depend on the order the constraints were written in.

use vstd::prelude::*;
use vstd::relations::{sorted_by, total_ordering};
use crate::order::{
    lex_le, str_le, str_eq, lemma_lex_le_reflexive, lemma_lex_le_total, lemma_lex_le_transitive,
    lemma_lex_le_antisymmetric, lemma_map_values_same_set, sort_by_le, sorted_le, TotalOrdered,
};
use crate::strbuild::{
    wrap_paren, wrap_not, join_with, parenthesize, negate, join_strings,
};

verus! {

/// Why a platform constraint could not be translated: the static lookup
/// tables do not know the term. Generation cannot proceed past this, since a
/// guessed condition would be silently wrong.
#[derive(Clone, Copy, Debug, PartialEq, Eq, Structural)]
pub enum CondError {
    /// A target triple absent from the triple table.
    UnknownTriple,
    /// A cfg leaf (bare name, or key/value pair) absent from the leaf tables.
    UnknownCfgLeaf,
}

/// A single cfg leaf: a bare name such as `unix`, or a key/value pair such as
/// `target_os = "linux"`.
#[derive(Clone, Debug, PartialEq, Eq)]
pub enum Cfg {
    Name(String),
    KeyPair(String, String),
}

/// A boolean expression over cfg leaves.
#[derive(Debug)]
pub enum CfgExpr {
    Not(Box<CfgExpr>),
    All(Vec<CfgExpr>),
    Any(Vec<CfgExpr>),
    Value(Cfg),
}

/// A platform constraint on a dependency edge: a named target triple, or a
/// cfg expression.
#[derive(Debug)]
pub enum Platform {
    Name(String),
    Cfg(CfgExpr),
}

/// The set of platforms a dependency applies to.
#[derive(Debug)]
pub enum PlatformSet {
    All,
    Platforms(Vec<Platform>),
}

/// A boolean condition in the output build language's syntax.
#[derive(Clone, Debug, PartialEq, Eq)]
pub struct Condition(pub String);

impl View for Condition {
    type V = Seq<char>;

    open spec fn view(&self) -> Seq<char> {
        self.0@
    }
}

/// The lexicographic order as a spec closure, for vstd's sorting.
pub open spec fn lex_leq_fn() -> spec_fn(Seq<char>, Seq<char>) -> bool {
    |a: Seq<char>, b: Seq<char>| lex_le(a, b)
}

pub proof fn lemma_lex_total_ordering()
    ensures
        total_ordering(lex_leq_fn()),
{
    let leq = lex_leq_fn();
    assert forall|a: Seq<char>| #[trigger] leq(a, a) by {
        lemma_lex_le_reflexive(a);
    }
    assert forall|a: Seq<char>, b: Seq<char>| #[trigger] leq(a, b) && #[trigger] leq(b, a)
        implies a == b by {
        lemma_lex_le_antisymmetric(a, b);
    }
    assert forall|a: Seq<char>, b: Seq<char>, c: Seq<char>|
        #[trigger] leq(a, b) && #[trigger] leq(b, c) implies leq(a, c) by {
        lemma_lex_le_transitive(a, b, c);
    }
    assert forall|a: Seq<char>, b: Seq<char>| #[trigger] leq(a, b) || #[trigger] leq(b, a) by {
        lemma_lex_le_total(a, b);
    }
}

/// Strictly increasing under the lexicographic order: sorted, no duplicates.
pub open spec fn strictly_sorted(s: Seq<Seq<char>>) -> bool {
    forall|i: int, j: int| #![trigger s[i], s[j]]
        0 <= i < j < s.len() ==> lex_le(s[i], s[j]) && s[i] != s[j]
}

/// Remove adjacent duplicates, keeping one of each run.
pub open spec fn dedup_adjacent(s: Seq<Seq<char>>) -> Seq<Seq<char>>
    decreases s.len(),
{
    if s.len() == 0 {
        Seq::empty()
    } else if s.len() == 1 {
        s
    } else if s[s.len() - 1] == s[s.len() - 2] {
        dedup_adjacent(s.drop_last())
    } else {
        dedup_adjacent(s.drop_last()).push(s.last())
    }
}

/// Deduplicating a sorted sequence yields a strictly sorted sequence with the
/// same elements.
pub proof fn lemma_dedup_adjacent_of_sorted(s: Seq<Seq<char>>)
    requires
        sorted_by(s, lex_leq_fn()),
    ensures
        strictly_sorted(dedup_adjacent(s)),
        forall|x: Seq<char>| #[trigger] dedup_adjacent(s).contains(x) <==> s.contains(x),
    decreases s.len(),
{
    let d = dedup_adjacent(s);
    if s.len() <= 1 {
        assert forall|x: Seq<char>| #[trigger] d.contains(x) <==> s.contains(x) by {}
    } else {
        let sp = s.drop_last();
        assert(sorted_by(sp, lex_leq_fn())) by {
            assert(forall|i: int| 0 <= i < sp.len() ==> sp[i] == #[trigger] s[i]);
        }
        lemma_dedup_adjacent_of_sorted(sp);
        let dp = dedup_adjacent(sp);
        if s[s.len() - 1] == s[s.len() - 2] {
            assert(d == dp);
            assert forall|x: Seq<char>| #[trigger] d.contains(x) <==> s.contains(x) by {
                if s.contains(x) {
                    let i = choose|i: int| 0 <= i < s.len() && s[i] == x;
                    if i == s.len() - 1 {
                        assert(sp[s.len() - 2] == x);
                        assert(sp.contains(x));
                    } else {
                        assert(sp[i] == x);
                        assert(sp.contains(x));
                    }
                }
                if dp.contains(x) {
                    assert(sp.contains(x));
                    let i = choose|i: int| 0 <= i < sp.len() && sp[i] == x;
                    assert(s[i] == x);
                    assert(s.contains(x));
                }
            }
        } else {
            assert(d == dp.push(s.last()));
            // every kept element is strictly below the appended last
            assert forall|k: int| 0 <= k < dp.len() implies lex_le(dp[k], s.last()) && dp[k]
                != s.last() by {
                assert(dp.contains(dp[k]));
                assert(sp.contains(dp[k]));
                let i = choose|i: int| 0 <= i < sp.len() && sp[i] == dp[k];
                assert(lex_leq_fn()(s[i], s[s.len() - 1]));
                assert(lex_le(dp[k], s.last()));
                if dp[k] == s.last() {
                    // an equal element earlier in a sorted sequence forces the
                    // second-to-last to be equal too
                    if i < s.len() - 2 {
                        assert(lex_leq_fn()(s[i], s[s.len() - 2]));
                        assert(lex_leq_fn()(s[s.len() - 2], s[s.len() - 1]));
                        lemma_lex_le_antisymmetric(s[s.len() - 2], s[s.len() - 1]);
                        assert(false);
                    } else {
                        assert(i == s.len() - 2);
                        assert(false);
                    }
                }
            }
            assert forall|i: int, j: int| #![trigger d[i], d[j]] 0 <= i < j < d.len()
                implies lex_le(d[i], d[j]) && d[i] != d[j] by {
                if j < d.len() - 1 {
                    assert(d[i] == dp[i] && d[j] == dp[j]);
                } else {
                    assert(d[j] == s.last());
                    assert(d[i] == dp[i]);
                }
            }
            assert forall|x: Seq<char>| #[trigger] d.contains(x) <==> s.contains(x) by {
                if d.contains(x) {
                    let i = choose|i: int| 0 <= i < d.len() && d[i] == x;
                    if i < d.len() - 1 {
                        assert(dp.contains(x));
                        assert(sp.contains(x));
                        let k = choose|k: int| 0 <= k < sp.len() && sp[k] == x;
                        assert(s[k] == x);
                        assert(s.contains(x));
                    } else {
                        assert(x == s.last());
                        assert(s[s.len() - 1] == x);
                        assert(s.contains(x));
                    }
                }
                if s.contains(x) {
                    let i = choose|i: int| 0 <= i < s.len() && s[i] == x;
                    if i == s.len() - 1 {
                        assert(d[d.len() - 1] == x);
                        assert(d.contains(x));
                    } else {
                        assert(sp[i] == x);
                        assert(sp.contains(x));
                        assert(dp.contains(x));
                        let k = choose|k: int| 0 <= k < dp.len() && dp[k] == x;
                        assert(d[k] == x);
                        assert(d.contains(x));
                    }
                }
            }
        }
    }
}

/// Two strictly sorted sequences with the same elements are equal.
pub proof fn lemma_strict_sorted_unique(x: Seq<Seq<char>>, y: Seq<Seq<char>>)
    requires
        strictly_sorted(x),
        strictly_sorted(y),
        forall|e: Seq<char>| x.contains(e) <==> y.contains(e),
    ensures
        x == y,
    decreases x.len(),
{
    if x.len() == 0 {
        if y.len() > 0 {
            assert(y.contains(y[0]));
            assert(x.contains(y[0]));
            assert(false);
        }
        assert(x =~= y);
    } else {
        if y.len() == 0 {
            assert(x.contains(x[0]));
            assert(y.contains(x[0]));
            assert(false);
        }
        assert(x.contains(x[0]));
        assert(y.contains(x[0]));
        let j = choose|j: int| 0 <= j < y.len() && y[j] == x[0];
        assert(y.contains(y[0]));
        assert(x.contains(y[0]));
        let i = choose|i: int| 0 <= i < x.len() && x[i] == y[0];
        // y[0] <= y[j] == x[0] and x[0] <= x[i] == y[0]
        assert(lex_le(y[0], x[0])) by {
            if j > 0 {
                assert(lex_le(y[0], y[j]) && y[0] != y[j]);
            } else {
                lemma_lex_le_reflexive(y[0]);
            }
        }
        assert(lex_le(x[0], y[0])) by {
            if i > 0 {
                assert(lex_le(x[0], x[i]) && x[0] != x[i]);
            } else {
                lemma_lex_le_reflexive(x[0]);
            }
        }
        lemma_lex_le_antisymmetric(x[0], y[0]);
        assert(x[0] == y[0]);
        let xt = x.drop_first();
        let yt = y.drop_first();
        assert(strictly_sorted(xt)) by {
            assert(forall|k: int| 0 <= k < xt.len() ==> #[trigger] xt[k] == x[k + 1]);
        }
        assert(strictly_sorted(yt)) by {
            assert(forall|k: int| 0 <= k < yt.len() ==> #[trigger] yt[k] == y[k + 1]);
        }
        assert forall|e: Seq<char>| xt.contains(e) implies yt.contains(e) by {
            let k = choose|k: int| 0 <= k < xt.len() && xt[k] == e;
            assert(x[k + 1] == e);
            assert(x.contains(e));
            assert(e != x[0]);
            assert(y.contains(e));
            let m = choose|m: int| 0 <= m < y.len() && y[m] == e;
            assert(m != 0);
            assert(yt[m - 1] == e);
            assert(yt.contains(e));
        }
        assert forall|e: Seq<char>| yt.contains(e) implies xt.contains(e) by {
            let k = choose|k: int| 0 <= k < yt.len() && yt[k] == e;
            assert(y[k + 1] == e);
            assert(y.contains(e));
            assert(e != y[0]);
            assert(x.contains(e));
            let m = choose|m: int| 0 <= m < x.len() && x[m] == e;
            assert(m != 0);
            assert(xt[m - 1] == e);
            assert(xt.contains(e));
        }
        lemma_strict_sorted_unique(xt, yt);
        assert forall|k: int| 0 <= k < x.len() implies x[k] == y[k] by {
            if k > 0 {
                assert(xt[k - 1] == yt[k - 1]);
            }
        }
        assert(x.len() == y.len());
        assert(x =~= y);
    }
}

/// The canonical rendering of a fragment list: parenthesized fragments
/// sorted, deduplicated, and joined.
pub open spec fn spec_render_frags(fs: Seq<Seq<char>>, sep: Seq<char>) -> Seq<char> {
    join_with(dedup_adjacent(fs.sort_by(lex_leq_fn())), sep)
}

/// The fixed table from target triples to conditions.
pub open spec fn spec_triple_to_condition(t: Seq<char>) -> Option<Seq<char>> {
    if t == "i686-linux-android"@ {
        Some("is_android && target_cpu == \"x86\""@)
    } else if t == "x86_64-linux-android"@ {
        Some("is_android && target_cpu == \"x64\""@)
    } else if t == "armv7-linux-android"@ {
        Some("is_android && target_cpu == \"arm\""@)
    } else if t == "aarch64-linux-android"@ {
        Some("is_android && target_cpu == \"arm64\""@)
    } else if t == "aarch64-fuchsia"@ {
        Some("is_fuchsia && target_cpu == \"arm64\""@)
    } else if t == "x86_64-fuchsia"@ {
        Some("is_fuchsia && target_cpu == \"x64\""@)
    } else if t == "aarch64-apple-ios"@ {
        Some("is_ios && target_cpu == \"arm64\""@)
    } else if t == "armv7-apple-ios"@ {
        Some("is_ios && target_cpu == \"arm\""@)
    } else if t == "x86_64-apple-ios"@ {
        Some("is_ios && target_cpu == \"x64\""@)
    } else if t == "i386-apple-ios"@ {
        Some("is_ios && target_cpu == \"x86\""@)
    } else if t == "i686-pc-windows-msvc"@ {
        Some("is_win && target_cpu == \"x86\""@)
    } else if t == "x86_64-pc-windows-msvc"@ {
        Some("is_win && target_cpu == \"x64\""@)
    } else if t == "i686-unknown-linux-gnu"@ {
        Some("(is_linux || is_chromeos) && target_cpu == \"x86\""@)
    } else if t == "x86_64-unknown-linux-gnu"@ {
        Some("(is_linux || is_chromeos) && target_cpu == \"x64\""@)
    } else if t == "x86_64-apple-darwin"@ {
        Some("is_mac && target_cpu == \"x64\""@)
    } else if t == "aarch64-apple-darwin"@ {
        Some("is_mac && target_cpu == \"arm64\""@)
    } else {
        None
    }
}

/// The fixed table from `target_os` names to conditions.
pub open spec fn spec_target_os_to_condition(t: Seq<char>) -> Option<Seq<char>> {
    if t == "android"@ {
        Some("is_android"@)
    } else if t == "darwin"@ {
        Some("is_mac"@)
    } else if t == "fuchsia"@ {
        Some("is_fuchsia"@)
    } else if t == "ios"@ {
        Some("is_ios"@)
    } else if t == "linux"@ {
        Some("is_linux || is_chromeos"@)
    } else if t == "windows"@ {
        Some("is_win"@)
    } else {
        None
    }
}

/// The condition of a cfg leaf. Only the bare names `unix` and `windows` are
/// known; `unix` is rendered as the negation of the Windows condition, since
/// every non-Windows platform the build system targets sets the `unix` cfg.
pub open spec fn spec_cfg_to_condition(c: Cfg) -> Result<Seq<char>, CondError> {
    match c {
        Cfg::Name(n) => if n@ == "unix"@ {
            Ok("!is_win"@)
        } else if n@ == "windows"@ {
            Ok("is_win"@)
        } else {
            Err(CondError::UnknownCfgLeaf)
        },
        Cfg::KeyPair(k, v) => if k@ == "target_os"@ {
            match spec_target_os_to_condition(v@) {
                Some(s) => Ok(s),
                None => Err(CondError::UnknownCfgLeaf),
            }
        } else {
            Err(CondError::UnknownCfgLeaf)
        },
    }
}

/// The condition of a cfg expression.
pub open spec fn spec_cfg_expr_to_condition(e: CfgExpr) -> Result<Seq<char>, CondError>
    decreases e,
{
    match e {
        CfgExpr::Not(inner) => match spec_cfg_expr_to_condition(*inner) {
            Ok(s) => Ok(wrap_not(s)),
            Err(er) => Err(er),
        },
        CfgExpr::All(xs) => match spec_cond_list(xs@) {
            Ok(cs) => Ok(spec_render_frags(cs, " && "@)),
            Err(er) => Err(er),
        },
        CfgExpr::Any(xs) => match spec_cond_list(xs@) {
            Ok(cs) => Ok(spec_render_frags(cs, " || "@)),
            Err(er) => Err(er),
        },
        CfgExpr::Value(c) => spec_cfg_to_condition(c),
    }
}

/// The parenthesized conditions of a list of sub-expressions, or the first
/// error among them.
pub open spec fn spec_cond_list(s: Seq<CfgExpr>) -> Result<Seq<Seq<char>>, CondError>
    decreases s, s.len(),
{
    if s.len() == 0 {
        Ok(Seq::empty())
    } else {
        match spec_cond_list(s.drop_last()) {
            Ok(cs) => match spec_cfg_expr_to_condition(s.last()) {
                Ok(c) => Ok(cs.push(wrap_paren(c))),
                Err(er) => Err(er),
            },
            Err(er) => Err(er),
        }
    }
}

/// An error in a prefix decides the whole list.
proof fn lemma_cond_list_prefix_error(s: Seq<CfgExpr>, j: int, er: CondError)
    requires
        0 <= j <= s.len(),
        spec_cond_list(s.take(j)) == Err::<Seq<Seq<char>>, CondError>(er),
    ensures
        spec_cond_list(s) == Err::<Seq<Seq<char>>, CondError>(er),
    decreases s.len(),
{
    if j == s.len() {
        assert(s.take(j) =~= s);
    } else {
        assert(s.drop_last().take(j) =~= s.take(j));
        lemma_cond_list_prefix_error(s.drop_last(), j, er);
        assert(s.len() > 0);
    }
}

/// Decide the condition for a target triple against the fixed table.
pub fn triple_to_condition(triple: &str) -> (r: Result<&'static str, CondError>)
    ensures
        match r {
            Ok(c) => spec_triple_to_condition(triple@) == Some(c@),
            Err(e) => spec_triple_to_condition(triple@) is None && e == CondError::UnknownTriple,
        },
{
    if str_eq(triple, "i686-linux-android") {
        Ok("is_android && target_cpu == \"x86\"")
    } else if str_eq(triple, "x86_64-linux-android") {
        Ok("is_android && target_cpu == \"x64\"")
    } else if str_eq(triple, "armv7-linux-android") {
        Ok("is_android && target_cpu == \"arm\"")
    } else if str_eq(triple, "aarch64-linux-android") {
        Ok("is_android && target_cpu == \"arm64\"")
    } else if str_eq(triple, "aarch64-fuchsia") {
        Ok("is_fuchsia && target_cpu == \"arm64\"")
    } else if str_eq(triple, "x86_64-fuchsia") {
        Ok("is_fuchsia && target_cpu == \"x64\"")
    } else if str_eq(triple, "aarch64-apple-ios") {
        Ok("is_ios && target_cpu == \"arm64\"")
    } else if str_eq(triple, "armv7-apple-ios") {
        Ok("is_ios && target_cpu == \"arm\"")
    } else if str_eq(triple, "x86_64-apple-ios") {
        Ok("is_ios && target_cpu == \"x64\"")
    } else if str_eq(triple, "i386-apple-ios") {
        Ok("is_ios && target_cpu == \"x86\"")
    } else if str_eq(triple, "i686-pc-windows-msvc") {
        Ok("is_win && target_cpu == \"x86\"")
    } else if str_eq(triple, "x86_64-pc-windows-msvc") {
        Ok("is_win && target_cpu == \"x64\"")
    } else if str_eq(triple, "i686-unknown-linux-gnu") {
        Ok("(is_linux || is_chromeos) && target_cpu == \"x86\"")
    } else if str_eq(triple, "x86_64-unknown-linux-gnu") {
        Ok("(is_linux || is_chromeos) && target_cpu == \"x64\"")
    } else if str_eq(triple, "x86_64-apple-darwin") {
        Ok("is_mac && target_cpu == \"x64\"")
    } else if str_eq(triple, "aarch64-apple-darwin") {
        Ok("is_mac && target_cpu == \"arm64\"")
    } else {
        Err(CondError::UnknownTriple)
    }
}

/// Decide the condition for a `target_os` name against the fixed table.
pub fn target_os_to_condition(target_os: &str) -> (r: Result<&'static str, CondError>)
    ensures
        match r {
            Ok(c) => spec_target_os_to_condition(target_os@) == Some(c@),
            Err(e) => spec_target_os_to_condition(target_os@) is None && e
                == CondError::UnknownCfgLeaf,
        },
{
    if str_eq(target_os, "android") {
        Ok("is_android")
    } else if str_eq(target_os, "darwin") {
        Ok("is_mac")
    } else if str_eq(target_os, "fuchsia") {
        Ok("is_fuchsia")
    } else if str_eq(target_os, "ios") {
        Ok("is_ios")
    } else if str_eq(target_os, "linux") {
        Ok("is_linux || is_chromeos")
    } else if str_eq(target_os, "windows") {
        Ok("is_win")
    } else {
        Err(CondError::UnknownCfgLeaf)
    }
}

/// Render a cfg leaf.
pub fn cfg_to_condition(cfg: &Cfg) -> (r: Result<String, CondError>)
    ensures
        match r {
            Ok(s) => spec_cfg_to_condition(*cfg) == Ok::<Seq<char>, CondError>(s@),
            Err(e) => spec_cfg_to_condition(*cfg) == Err::<Seq<char>, CondError>(e),
        },
{
    match cfg {
        Cfg::Name(n) => {
            if str_eq(n.as_str(), "unix") {
                Ok(String::from_str("!is_win"))
            } else if str_eq(n.as_str(), "windows") {
                Ok(String::from_str("is_win"))
            } else {
                Err(CondError::UnknownCfgLeaf)
            }
        },
        Cfg::KeyPair(k, v) => {
            if str_eq(k.as_str(), "target_os") {
                match target_os_to_condition(v.as_str()) {
                    Ok(c) => Ok(String::from_str(c)),
                    Err(e) => Err(e),
                }
            } else {
                Err(CondError::UnknownCfgLeaf)
            }
        },
    }
}

/// Remove adjacent duplicate strings, keeping one of each run.
fn dedup_sorted_strings(v: Vec<String>) -> (r: Vec<String>)
    ensures
        r@.map_values(|s: String| s@) == dedup_adjacent(v@.map_values(|s: String| s@)),
{
    let ghost vs = v@.map_values(|s: String| s@);
    let mut out: Vec<String> = Vec::new();
    let mut i: usize = 0;
    while i < v.len()
        invariant
            0 <= i <= v@.len(),
            vs == v@.map_values(|s: String| s@),
            out@.map_values(|s: String| s@) == dedup_adjacent(vs.take(i as int)),
        decreases v@.len() - i,
    {
        let ghost prev = out@.map_values(|s: String| s@);
        let mut skip_it = false;
        if i > 0 {
            if str_eq(v[i].as_str(), v[i - 1].as_str()) {
                skip_it = true;
            }
        }
        if !skip_it {
            let c = v[i].clone();
            out.push(c);
            proof {
                assert(out@.map_values(|s: String| s@) =~= prev.push(vs[i as int]));
            }
        }
        proof {
            let t = vs.take(i + 1);
            assert(t.drop_last() =~= vs.take(i as int));
            assert(t.last() == vs[i as int]);
            if i == 0 {
                assert(t.len() == 1);
                assert(dedup_adjacent(t) == t);
                assert(out@.map_values(|s: String| s@) =~= t);
            } else {
                assert(t[t.len() - 1] == vs[i as int]);
                assert(t[t.len() - 2] == vs[i - 1]);
                if skip_it {
                    assert(vs[i as int] == vs[i - 1]);
                    assert(dedup_adjacent(t) == dedup_adjacent(vs.take(i as int)));
                } else {
                    assert(vs[i as int] != vs[i - 1]);
                    assert(dedup_adjacent(t) == dedup_adjacent(vs.take(i as int)).push(
                        vs[i as int],
                    ));
                }
            }
        }
        i = i + 1;
    }
    proof {
        assert(vs.take(vs.len() as int) =~= vs);
    }
    out
}

/// Sort, deduplicate and join rendered fragments.
#[verifier::rlimit(60)]
fn render_fragments(frags: Vec<String>, sep: &str) -> (r: String)
    ensures
        r@ == spec_render_frags(frags@.map_values(|s: String| s@), sep@),
{
    broadcast use vstd::seq_lib::group_to_multiset_ensures;

    let ghost fvs = frags@.map_values(|s: String| s@);
    let ghost frag_vals = frags@;
    let sorted = sort_by_le(frags);
    let ghost svs = sorted@.map_values(|s: String| s@);
    proof {
        // the sort kept the same values, hence the same views
        assert forall|x: String| sorted@.contains(x) <==> frag_vals.contains(x) by {
            vstd::seq_lib::to_multiset_contains::<String>(sorted@, x);
            vstd::seq_lib::to_multiset_contains::<String>(frag_vals, x);
        }
        lemma_map_values_same_set(sorted@, frag_vals, |s: String| s@);
        // the sorted values are sorted at view level
        assert(sorted_by(svs, lex_leq_fn())) by {
            assert forall|i: int, j: int| 0 <= i < j < svs.len() implies lex_leq_fn()(
                svs[i],
                svs[j],
            ) by {
                assert(sorted@[i].le_spec(&sorted@[j]));
            }
        }
        // the canonical sort agrees
        lemma_lex_total_ordering();
        fvs.lemma_sort_by_ensures(lex_leq_fn());
        let canon = fvs.sort_by(lex_leq_fn());
        assert forall|e: Seq<char>| #[trigger] canon.contains(e) <==> fvs.contains(e) by {
            vstd::seq_lib::to_multiset_contains::<Seq<char>>(canon, e);
            vstd::seq_lib::to_multiset_contains::<Seq<char>>(fvs, e);
        }
        lemma_dedup_adjacent_of_sorted(svs);
        lemma_dedup_adjacent_of_sorted(canon);
        assert forall|e: Seq<char>|
            dedup_adjacent(svs).contains(e) <==> dedup_adjacent(canon).contains(e) by {
            assert(dedup_adjacent(svs).contains(e) <==> svs.contains(e));
            assert(dedup_adjacent(canon).contains(e) <==> canon.contains(e));
        }
        lemma_strict_sorted_unique(dedup_adjacent(svs), dedup_adjacent(canon));
        assert(dedup_adjacent(svs) == dedup_adjacent(canon));
    }
    let deduped = dedup_sorted_strings(sorted);
    join_strings(&deduped, sep)
}

/// Render a cfg expression: leaves through the tables, negation wrapped, and
/// conjunction/disjunction operands parenthesized, sorted, deduplicated and
/// joined.
pub fn cfg_expr_to_condition(cfg_expr: &CfgExpr) -> (r: Result<String, CondError>)
    ensures
        match r {
            Ok(s) => spec_cfg_expr_to_condition(*cfg_expr) == Ok::<Seq<char>, CondError>(s@),
            Err(e) => spec_cfg_expr_to_condition(*cfg_expr) == Err::<Seq<char>, CondError>(e),
        },
    decreases *cfg_expr,
{
    match cfg_expr {
        CfgExpr::Not(inner) => {
            match cfg_expr_to_condition(inner) {
                Ok(s) => Ok(negate(s.as_str())),
                Err(e) => Err(e),
            }
        },
        CfgExpr::All(xs) => {
            match collect_operand_conditions(xs) {
                Ok(frags) => Ok(render_fragments(frags, " && ")),
                Err(e) => Err(e),
            }
        },
        CfgExpr::Any(xs) => {
            match collect_operand_conditions(xs) {
                Ok(frags) => Ok(render_fragments(frags, " || ")),
                Err(e) => Err(e),
            }
        },
        CfgExpr::Value(c) => cfg_to_condition(c),
    }
}

/// Render each operand and parenthesize it, or return the first error.
fn collect_operand_conditions(xs: &Vec<CfgExpr>) -> (r: Result<Vec<String>, CondError>)
    ensures
        match r {
            Ok(frags) => spec_cond_list(xs@) == Ok::<Seq<Seq<char>>, CondError>(
                frags@.map_values(|s: String| s@),
            ),
            Err(e) => spec_cond_list(xs@) == Err::<Seq<Seq<char>>, CondError>(e),
        },
    decreases xs@,
{
    let mut frags: Vec<String> = Vec::new();
    let mut idx: usize = 0;
    proof {
        assert(xs@.take(0) =~= Seq::<CfgExpr>::empty());
        assert(frags@.map_values(|s: String| s@) =~= Seq::<Seq<char>>::empty());
    }
    while idx < xs.len()
        invariant
            0 <= idx <= xs@.len(),
            spec_cond_list(xs@.take(idx as int)) == Ok::<Seq<Seq<char>>, CondError>(
                frags@.map_values(|s: String| s@),
            ),
        decreases xs@.len() - idx,
    {
        let ghost prev = frags@.map_values(|s: String| s@);
        let c = match cfg_expr_to_condition(&xs[idx]) {
            Ok(c) => c,
            Err(e) => {
                proof {
                    let t = xs@.take(idx + 1);
                    assert(t.drop_last() =~= xs@.take(idx as int));
                    assert(t.last() == xs@[idx as int]);
                    assert(spec_cond_list(t) == Err::<Seq<Seq<char>>, CondError>(e));
                    lemma_cond_list_prefix_error(xs@, idx + 1, e);
                }
                return Err(e);
            },
        };
        let p = parenthesize(c.as_str());
        frags.push(p);
        proof {
            let t = xs@.take(idx + 1);
            assert(t.drop_last() =~= xs@.take(idx as int));
            assert(t.last() == xs@[idx as int]);
            assert(frags@.map_values(|s: String| s@) =~= prev.push(wrap_paren(c@)));
        }
        idx = idx + 1;
    }
    proof {
        assert(xs@.take(xs@.len() as int) =~= xs@);
    }
    Ok(frags)
}

proof fn lemma_cfg_err_kind(e: CfgExpr)
    ensures
        spec_cfg_expr_to_condition(e) is Err ==> spec_cfg_expr_to_condition(e) == Err::<
            Seq<char>,
            CondError,
        >(CondError::UnknownCfgLeaf),
    decreases e,
{
    match e {
        CfgExpr::Not(inner) => {
            lemma_cfg_err_kind(*inner);
        },
        CfgExpr::All(xs) => {
            lemma_cond_list_err_kind(xs@);
        },
        CfgExpr::Any(xs) => {
            lemma_cond_list_err_kind(xs@);
        },
        CfgExpr::Value(c) => {},
    }
}

proof fn lemma_cond_list_err_kind(s: Seq<CfgExpr>)
    ensures
        spec_cond_list(s) is Err ==> spec_cond_list(s) == Err::<Seq<Seq<char>>, CondError>(
            CondError::UnknownCfgLeaf,
        ),
    decreases s, s.len(),
{
    if s.len() > 0 {
        lemma_cond_list_err_kind(s.drop_last());
        lemma_cfg_err_kind(s.last());
    }
}

proof fn lemma_cond_list_shape(s: Seq<CfgExpr>)
    ensures
        (spec_cond_list(s) is Ok) <==> (forall|i: int|
            0 <= i < s.len() ==> spec_cfg_expr_to_condition(#[trigger] s[i]) is Ok),
        spec_cond_list(s) is Ok ==> spec_cond_list(s)->Ok_0 == Seq::new(
            s.len(),
            |i: int| wrap_paren(spec_cfg_expr_to_condition(s[i])->Ok_0),
        ),
    decreases s.len(),
{
    if s.len() == 0 {
        assert(spec_cond_list(s)->Ok_0 =~= Seq::new(
            0,
            |i: int| wrap_paren(spec_cfg_expr_to_condition(s[i])->Ok_0),
        ));
    } else {
        let sp = s.drop_last();
        lemma_cond_list_shape(sp);
        assert(forall|i: int| 0 <= i < sp.len() ==> sp[i] == #[trigger] s[i]);
        if spec_cond_list(s) is Ok {
            assert(spec_cond_list(sp) is Ok);
            assert(spec_cfg_expr_to_condition(s.last()) is Ok);
            assert forall|i: int| 0 <= i < s.len() implies spec_cfg_expr_to_condition(
                #[trigger] s[i],
            ) is Ok by {
                if i < s.len() - 1 {
                    assert(sp[i] == s[i]);
                } else {
                    assert(s[i] == s.last());
                }
            }
            assert(spec_cond_list(s)->Ok_0 =~= Seq::new(
                s.len(),
                |i: int| wrap_paren(spec_cfg_expr_to_condition(s[i])->Ok_0),
            ));
        } else {
            if forall|i: int| 0 <= i < s.len() ==> spec_cfg_expr_to_condition(
                #[trigger] s[i],
            ) is Ok {
                assert(spec_cfg_expr_to_condition(s.last()) is Ok);
                assert(forall|i: int|
                    0 <= i < sp.len() ==> spec_cfg_expr_to_condition(#[trigger] sp[i]) is Ok);
                assert(spec_cond_list(sp) is Ok);
                assert(false);
            }
        }
    }
}

proof fn lemma_render_frags_same_set(fs: Seq<Seq<char>>, gs: Seq<Seq<char>>, sep: Seq<char>)
    requires
        forall|v: Seq<char>| fs.contains(v) <==> gs.contains(v),
    ensures
        spec_render_frags(fs, sep) == spec_render_frags(gs, sep),
{
    lemma_lex_total_ordering();
    fs.lemma_sort_by_ensures(lex_leq_fn());
    gs.lemma_sort_by_ensures(lex_leq_fn());
    let cf = fs.sort_by(lex_leq_fn());
    let cg = gs.sort_by(lex_leq_fn());
    assert forall|v: Seq<char>| #[trigger] cf.contains(v) <==> cg.contains(v) by {
        vstd::seq_lib::to_multiset_contains::<Seq<char>>(cf, v);
        vstd::seq_lib::to_multiset_contains::<Seq<char>>(fs, v);
        vstd::seq_lib::to_multiset_contains::<Seq<char>>(cg, v);
        vstd::seq_lib::to_multiset_contains::<Seq<char>>(gs, v);
    }
    lemma_dedup_adjacent_of_sorted(cf);
    lemma_dedup_adjacent_of_sorted(cg);
    assert forall|v: Seq<char>|
        dedup_adjacent(cf).contains(v) <==> dedup_adjacent(cg).contains(v) by {
        assert(dedup_adjacent(cf).contains(v) <==> cf.contains(v));
        assert(dedup_adjacent(cg).contains(v) <==> cg.contains(v));
    }
    lemma_strict_sorted_unique(dedup_adjacent(cf), dedup_adjacent(cg));
}

/// A conjunction or disjunction renders the same whenever the same operands
/// occur in it, however often and in whatever order: duplicate operands
/// collapse and reordering changes nothing.
pub proof fn lemma_cfg_render_same_operand_set(xs: Vec<CfgExpr>, ys: Vec<CfgExpr>)
    requires
        forall|e: CfgExpr| xs@.contains(e) <==> ys@.contains(e),
    ensures
        spec_cfg_expr_to_condition(CfgExpr::All(xs)) == spec_cfg_expr_to_condition(
            CfgExpr::All(ys),
        ),
        spec_cfg_expr_to_condition(CfgExpr::Any(xs)) == spec_cfg_expr_to_condition(
            CfgExpr::Any(ys),
        ),
{
    lemma_cond_list_shape(xs@);
    lemma_cond_list_shape(ys@);
    if spec_cond_list(xs@) is Ok {
        assert forall|i: int| 0 <= i < ys@.len() implies spec_cfg_expr_to_condition(
            #[trigger] ys@[i],
        ) is Ok by {
            assert(ys@.contains(ys@[i]));
            assert(xs@.contains(ys@[i]));
            let k = choose|k: int| 0 <= k < xs@.len() && xs@[k] == ys@[i];
            assert(spec_cfg_expr_to_condition(xs@[k]) is Ok);
        }
        assert(spec_cond_list(ys@) is Ok);
        let fs = spec_cond_list(xs@)->Ok_0;
        let gs = spec_cond_list(ys@)->Ok_0;
        assert forall|v: Seq<char>| fs.contains(v) <==> gs.contains(v) by {
            if fs.contains(v) {
                let i = choose|i: int| 0 <= i < fs.len() && fs[i] == v;
                assert(v == wrap_paren(spec_cfg_expr_to_condition(xs@[i])->Ok_0));
                assert(xs@.contains(xs@[i]));
                assert(ys@.contains(xs@[i]));
                let j = choose|j: int| 0 <= j < ys@.len() && ys@[j] == xs@[i];
                assert(gs[j] == v);
                assert(gs.contains(v));
            }
            if gs.contains(v) {
                let i = choose|i: int| 0 <= i < gs.len() && gs[i] == v;
                assert(v == wrap_paren(spec_cfg_expr_to_condition(ys@[i])->Ok_0));
                assert(ys@.contains(ys@[i]));
                assert(xs@.contains(ys@[i]));
                let j = choose|j: int| 0 <= j < xs@.len() && xs@[j] == ys@[i];
                assert(fs[j] == v);
                assert(fs.contains(v));
            }
        }
        lemma_render_frags_same_set(fs, gs, " && "@);
        lemma_render_frags_same_set(fs, gs, " || "@);
    } else {
        assert(!(forall|i: int|
            0 <= i < xs@.len() ==> spec_cfg_expr_to_condition(#[trigger] xs@[i]) is Ok));
        let i = choose|i: int|
            0 <= i < xs@.len() && !(spec_cfg_expr_to_condition(#[trigger] xs@[i]) is Ok);
        assert(xs@.contains(xs@[i]));
        assert(ys@.contains(xs@[i]));
        let j = choose|j: int| 0 <= j < ys@.len() && ys@[j] == xs@[i];
        assert(!(spec_cfg_expr_to_condition(ys@[j]) is Ok));
        assert(!(spec_cond_list(ys@) is Ok));
        lemma_cond_list_err_kind(xs@);
        lemma_cond_list_err_kind(ys@);
    }
}

/// Reordering the operands of a conjunction or disjunction does not change
/// its rendering.
pub proof fn lemma_cfg_render_operands_reordered(xs: Vec<CfgExpr>, ys: Vec<CfgExpr>)
    requires
        xs@.to_multiset() == ys@.to_multiset(),
    ensures
        spec_cfg_expr_to_condition(CfgExpr::All(xs)) == spec_cfg_expr_to_condition(
            CfgExpr::All(ys),
        ),
        spec_cfg_expr_to_condition(CfgExpr::Any(xs)) == spec_cfg_expr_to_condition(
            CfgExpr::Any(ys),
        ),
{
    assert forall|e: CfgExpr| xs@.contains(e) <==> ys@.contains(e) by {
        vstd::seq_lib::to_multiset_contains::<CfgExpr>(xs@, e);
        vstd::seq_lib::to_multiset_contains::<CfgExpr>(ys@, e);
    }
    lemma_cfg_render_same_operand_set(xs, ys);
}

/// The condition of one platform constraint.
pub open spec fn spec_platform_to_condition(p: Platform) -> Result<Seq<char>, CondError> {
    match p {
        Platform::Name(t) => match spec_triple_to_condition(t@) {
            Some(c) => Ok(c),
            None => Err(CondError::UnknownTriple),
        },
        Platform::Cfg(e) => spec_cfg_expr_to_condition(e),
    }
}

/// Map a platform constraint to a condition in the output language.
pub fn platform_to_condition(platform: &Platform) -> (r: Result<Condition, CondError>)
    ensures
        match r {
            Ok(c) => spec_platform_to_condition(*platform) == Ok::<Seq<char>, CondError>(c@),
            Err(e) => spec_platform_to_condition(*platform) == Err::<Seq<char>, CondError>(e),
        },
{
    match platform {
        Platform::Name(t) => match triple_to_condition(t.as_str()) {
            Ok(c) => Ok(Condition(String::from_str(c))),
            Err(e) => Err(e),
        },
        Platform::Cfg(e) => match cfg_expr_to_condition(e) {
            Ok(s) => Ok(Condition(s)),
            Err(er) => Err(er),
        },
    }
}

/// The parenthesized conditions of a list of platforms, in order, or the
/// first error among them. Platform sets are joined without further sorting:
/// each member's own rendering is already canonical.
pub open spec fn spec_platform_list(s: Seq<Platform>) -> Result<Seq<Seq<char>>, CondError>
    decreases s.len(),
{
    if s.len() == 0 {
        Ok(Seq::empty())
    } else {
        match spec_platform_list(s.drop_last()) {
            Ok(cs) => match spec_platform_to_condition(s.last()) {
                Ok(c) => Ok(cs.push(wrap_paren(c))),
                Err(er) => Err(er),
            },
            Err(er) => Err(er),
        }
    }
}

proof fn lemma_platform_list_prefix_error(s: Seq<Platform>, j: int, er: CondError)
    requires
        0 <= j <= s.len(),
        spec_platform_list(s.take(j)) == Err::<Seq<Seq<char>>, CondError>(er),
    ensures
        spec_platform_list(s) == Err::<Seq<Seq<char>>, CondError>(er),
    decreases s.len(),
{
    if j == s.len() {
        assert(s.take(j) =~= s);
    } else {
        assert(s.drop_last().take(j) =~= s.take(j));
        lemma_platform_list_prefix_error(s.drop_last(), j, er);
        assert(s.len() > 0);
    }
}

/// The condition of a whole platform set: none for all platforms, otherwise
/// the disjunction of the members' parenthesized conditions.
pub open spec fn spec_from_platform_set(ps: PlatformSet) -> Result<
    Option<Seq<char>>,
    CondError,
> {
    match ps {
        PlatformSet::All => Ok(None),
        PlatformSet::Platforms(list) => match spec_platform_list(list@) {
            Ok(cs) => Ok(Some(join_with(cs, " || "@))),
            Err(er) => Err(er),
        },
    }
}

impl PlatformSet {
    /// The set holding one constraint, or every platform for `None`.
    pub fn one(platform: Option<Platform>) -> (r: PlatformSet)
        ensures
            match platform {
                None => r == PlatformSet::All,
                Some(p) => r is Platforms && r->Platforms_0@ =~= seq![p],
            },
    {
        match platform {
            None => PlatformSet::All,
            Some(p) => {
                let mut v: Vec<Platform> = Vec::new();
                v.push(p);
                PlatformSet::Platforms(v)
            },
        }
    }

    /// The empty set of platforms.
    pub fn empty() -> (r: PlatformSet)
        ensures
            r is Platforms,
            r->Platforms_0@ =~= Seq::<Platform>::empty(),
    {
        PlatformSet::Platforms(Vec::new())
    }

    /// Add a constraint; `None` stands for every platform and widens the set
    /// to all of them.
    pub fn add(&mut self, platform: Option<Platform>)
        ensures
            match platform {
                None => *final(self) == PlatformSet::All,
                Some(p) => match *old(self) {
                    PlatformSet::All => *final(self) == PlatformSet::All,
                    PlatformSet::Platforms(list) => *final(self) is Platforms && (*final(
                    self))->Platforms_0@ =~= list@.push(p),
                },
            },
    {
        match platform {
            None => {
                *self = PlatformSet::All;
            },
            Some(p) => {
                match self {
                    PlatformSet::All => {},
                    PlatformSet::Platforms(list) => {
                        list.push(p);
                    },
                }
            },
        }
    }
}

impl Condition {
    /// The condition gating a platform set: `None` when the rules apply on
    /// every platform, otherwise the disjunction of the member conditions.
    pub fn from_platform_set(platforms: PlatformSet) -> (r: Result<Option<Condition>, CondError>)
        ensures
            match r {
                Ok(Some(c)) => spec_from_platform_set(platforms) == Ok::<
                    Option<Seq<char>>,
                    CondError,
                >(Some(c@)),
                Ok(None) => spec_from_platform_set(platforms) == Ok::<
                    Option<Seq<char>>,
                    CondError,
                >(None),
                Err(e) => spec_from_platform_set(platforms) == Err::<
                    Option<Seq<char>>,
                    CondError,
                >(e),
            },
            (platforms is All) <==> (r is Ok && r->Ok_0 is None),
    {
        let list = match &platforms {
            PlatformSet::All => {
                return Ok(None);
            },
            PlatformSet::Platforms(list) => list,
        };
        let mut frags: Vec<String> = Vec::new();
        let mut idx: usize = 0;
        proof {
            assert(list@.take(0) =~= Seq::<Platform>::empty());
            assert(frags@.map_values(|s: String| s@) =~= Seq::<Seq<char>>::empty());
        }
        while idx < list.len()
            invariant
                platforms is Platforms,
                platforms->Platforms_0 == *list,
                0 <= idx <= list@.len(),
                spec_platform_list(list@.take(idx as int)) == Ok::<Seq<Seq<char>>, CondError>(
                    frags@.map_values(|s: String| s@),
                ),
            decreases list@.len() - idx,
        {
            let ghost prev = frags@.map_values(|s: String| s@);
            let c = match platform_to_condition(&list[idx]) {
                Ok(c) => c,
                Err(e) => {
                    proof {
                        let t = list@.take(idx + 1);
                        assert(t.drop_last() =~= list@.take(idx as int));
                        assert(t.last() == list@[idx as int]);
                        assert(spec_platform_list(t) == Err::<Seq<Seq<char>>, CondError>(e));
                        lemma_platform_list_prefix_error(list@, idx + 1, e);
                    }
                    return Err(e);
                },
            };
            let p = parenthesize(c.0.as_str());
            frags.push(p);
            proof {
                let t = list@.take(idx + 1);
                assert(t.drop_last() =~= list@.take(idx as int));
                assert(t.last() == list@[idx as int]);
                assert(frags@.map_values(|s: String| s@) =~= prev.push(wrap_paren(c@)));
            }
            idx = idx + 1;
        }
        proof {
            assert(list@.take(list@.len() as int) =~= list@);
        }
        let joined = join_strings(&frags, " || ");
        Ok(Some(Condition(joined)))
    }
}

} // verus!
