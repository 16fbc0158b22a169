//! Synthesizing the build rules of one package: the library rule per
//! dependency kind, one rule per binary, and a test-support alias where the
//! visibility policy calls for one.

use vstd::prelude::*;
use crate::condition::CondError;
use crate::group::{
    DepOfDep, DepGroup, PackageId, GroupView, group_deps, group_views, valid_grouping,
    spec_edge_cond, spec_edge_pkg, group_has,
};
use crate::jsonkv::{kv_lookup, merged_lookup, merge_extra_kv};
use crate::order::{
    str_eq, sort_by_le, dedup_le, sorted_distinct, TotalOrdered,
};
use crate::strbuild::{join_with, join_strings, concat2, trimmed_end, trim_end_str};
use crate::normalized_name;
use crate::normalize_target_name;

verus! {

/// Flags shared by every rule variant.
#[derive(Debug)]
pub struct RuleCommon {
    /// The rule may only be used by test code.
    pub testonly: bool,
    /// Without this flag the rule is visible to other third-party code only.
    pub public_visibility: bool,
}

/// Full descriptor of one buildable target.
#[derive(Debug)]
pub struct RuleConcrete {
    pub crate_name: Option<String>,
    pub epoch: Option<String>,
    pub crate_type: String,
    pub crate_root: String,
    pub sources: Vec<String>,
    pub inputs: Vec<String>,
    pub edition: String,
    pub cargo_pkg_version: String,
    pub cargo_pkg_authors: Option<String>,
    pub cargo_pkg_name: String,
    pub cargo_pkg_description: Option<String>,
    pub deps: Vec<DepGroup>,
    pub build_deps: Vec<DepGroup>,
    pub aliased_deps: Vec<(String, String)>,
    pub features: Vec<String>,
    pub build_root: Option<String>,
    pub build_script_sources: Vec<String>,
    pub build_script_inputs: Vec<String>,
    pub build_script_outputs: Vec<String>,
    pub extra_kv: Vec<(String, serde_json::Value)>,
    /// A binary rule that must depend on its package's library rule.
    pub dep_on_lib: bool,
}

/// One build rule: a concrete target, or a group aliasing a concrete one.
#[derive(Debug)]
pub enum Rule {
    Concrete { common: RuleCommon, details: RuleConcrete },
    Group { common: RuleCommon, concrete_target: String },
}

/// The rules of one generated build file, in declaration order.
#[derive(Debug)]
pub struct BuildFile {
    pub rules: Vec<(String, Rule)>,
}

/// Who may depend on a package's library rule.
#[derive(Clone, Copy, Debug, PartialEq, Eq, Structural)]
pub enum Visibility {
    /// Usable anywhere.
    Public,
    /// Usable from other third-party code only.
    ThirdParty,
    /// Usable from third-party code, and from first-party tests through a
    /// test-support alias.
    TestOnlyAndThirdParty,
}

impl Default for Visibility {
    /// Restricted to third-party use unless configured otherwise.
    fn default() -> (r: Self)
        ensures
            r == Visibility::ThirdParty,
    {
        Visibility::ThirdParty
    }
}

/// Externally supplied per-package overrides.
#[derive(Debug)]
pub struct PerCrateMetadata {
    /// Names of files the package's build script may write.
    pub build_script_outputs: Vec<String>,
    /// Extra configuration text pasted into the build rule by the renderer.
    pub gn_variables: Option<String>,
    /// The package's visibility policy.
    pub visibility: Visibility,
}

impl Default for PerCrateMetadata {
    fn default() -> (r: Self)
        ensures
            r.build_script_outputs@.len() == 0,
            r.gn_variables is None,
            r.visibility == Visibility::ThirdParty,
    {
        PerCrateMetadata {
            build_script_outputs: Vec::new(),
            gn_variables: None,
            visibility: Visibility::ThirdParty,
        }
    }
}

/// One dependency kind of a package.
#[derive(Clone, Copy, Debug, PartialEq, Eq, Structural)]
pub enum DepKind {
    Normal,
    Build,
    Development,
}

/// The per-kind resolution info the synthesizer reads: the features enabled
/// for the package under that kind.
#[derive(Debug)]
pub struct KindInfo {
    pub features: Vec<String>,
}

/// A library target of a package.
#[derive(Debug)]
pub struct LibTarget {
    pub root: String,
    pub lib_type: String,
}

/// A binary target of a package.
#[derive(Debug)]
pub struct BinTarget {
    pub name: String,
    pub root: String,
}

/// The source and input files of a package, as root-relative paths.
#[derive(Debug)]
pub struct CrateFiles {
    pub sources: Vec<String>,
    pub inputs: Vec<String>,
    pub build_script_sources: Vec<String>,
    pub build_script_inputs: Vec<String>,
}

/// One resolved package of the dependency graph.
#[derive(Debug)]
pub struct Package {
    pub package_name: String,
    pub version: String,
    pub edition: String,
    pub authors: Vec<String>,
    pub description: Option<String>,
    pub epoch: String,
    pub lib_target: Option<LibTarget>,
    pub bin_targets: Vec<BinTarget>,
    pub build_script: Option<String>,
    pub dependency_kinds: Vec<(DepKind, KindInfo)>,
    pub dependencies: Vec<DepOfDep>,
    pub build_dependencies: Vec<DepOfDep>,
}

/// Per-package configuration overrides.
#[derive(Debug)]
pub struct CrateConfig {
    pub exclude_deps_in_gn: Vec<String>,
    pub extra_kv: Vec<(String, serde_json::Value)>,
}

/// The whole build configuration: global settings and per-package overrides.
#[derive(Debug)]
pub struct BuildConfig {
    pub all_config: CrateConfig,
    pub per_crate_config: Vec<(String, CrateConfig)>,
}

/// The views of a string list.
pub open spec fn str_views(ps: Seq<String>) -> Seq<Seq<char>> {
    ps.map_values(|p: String| p@)
}

/// Each path prefixed into a root-absolute build path.
pub open spec fn gn_path_views(ps: Seq<String>) -> Seq<Seq<char>> {
    ps.map_values(|p: String| "//"@ + p@)
}

/// Prefix every path with the build-root marker.
fn gn_paths(ps: &Vec<String>) -> (r: Vec<String>)
    ensures
        str_views(r@) == gn_path_views(ps@),
{
    let mut out: Vec<String> = Vec::new();
    let mut i: usize = 0;
    while i < ps.len()
        invariant
            0 <= i <= ps@.len(),
            str_views(out@) == gn_path_views(ps@.take(i as int)),
        decreases ps@.len() - i,
    {
        let p = concat2("//", ps[i].as_str());
        out.push(p);
        proof {
            assert(str_views(out@) =~= gn_path_views(ps@.take(i as int)).push(
                "//"@ + ps@[i as int]@,
            ));
            assert(gn_path_views(ps@.take(i + 1)) =~= gn_path_views(ps@.take(i as int)).push(
                "//"@ + ps@[i as int]@,
            ));
        }
        i = i + 1;
    }
    proof {
        assert(ps@.take(ps@.len() as int) =~= ps@);
    }
    out
}

/// Copy a string list.
fn clone_strings(v: &Vec<String>) -> (r: Vec<String>)
    ensures
        r@ == v@,
{
    let mut out: Vec<String> = Vec::new();
    let mut i: usize = 0;
    while i < v.len()
        invariant
            0 <= i <= v@.len(),
            out@ == v@.take(i as int),
        decreases v@.len() - i,
    {
        out.push(v[i].clone());
        proof {
            assert(out@ =~= v@.take(i + 1));
        }
        i = i + 1;
    }
    proof {
        assert(v@.take(v@.len() as int) =~= v@);
    }
    out
}

/// The features recorded for a dependency kind, first entry of the kind.
pub open spec fn spec_kind_features(kinds: Seq<(DepKind, KindInfo)>, k: DepKind) -> Option<
    Seq<String>,
>
    decreases kinds.len(),
{
    if kinds.len() == 0 {
        None
    } else if kinds[0].0 == k {
        Some(kinds[0].1.features@)
    } else {
        spec_kind_features(kinds.drop_first(), k)
    }
}

/// The features for a kind, or an empty list for a kind that no graph edge
/// requested.
fn kind_features(kinds: &Vec<(DepKind, KindInfo)>, k: DepKind) -> (r: Vec<String>)
    ensures
        match spec_kind_features(kinds@, k) {
            Some(f) => r@ == f,
            None => r@.len() == 0,
        },
{
    let mut i: usize = 0;
    proof {
        assert(kinds@.skip(0) =~= kinds@);
    }
    while i < kinds.len()
        invariant
            0 <= i <= kinds@.len(),
            spec_kind_features(kinds@, k) == spec_kind_features(kinds@.skip(i as int), k),
        decreases kinds@.len() - i,
    {
        proof {
            assert(kinds@.skip(i as int)[0] == kinds@[i as int]);
            assert(kinds@.skip(i as int).drop_first() =~= kinds@.skip(i + 1));
        }
        if kinds[i].0 == k {
            return clone_strings(&kinds[i].1.features);
        }
        i = i + 1;
    }
    proof {
        assert(kinds@.skip(kinds@.len() as int) =~= Seq::<(DepKind, KindInfo)>::empty());
    }
    Vec::new()
}

/// Sort a feature list and drop duplicates: the result is strictly sorted
/// and holds exactly the views of the input.
#[verifier::rlimit(100)]
fn normalize_features(v: Vec<String>) -> (r: Vec<String>)
    ensures
        sorted_distinct(r@),
        forall|x: Seq<char>|
            #[trigger] str_views(r@).contains(x) <==> str_views(v@).contains(x),
{
    let sorted = sort_by_le(v);
    let r = dedup_le(sorted);
    proof {
        broadcast use vstd::seq_lib::group_to_multiset_ensures;

        assert forall|x: Seq<char>|
            #[trigger] str_views(r@).contains(x) <==> str_views(v@).contains(x) by {
            if str_views(r@).contains(x) {
                let i = choose|i: int| 0 <= i < str_views(r@).len() && str_views(r@)[i] == x;
                assert(r@.contains(r@[i]));
                assert(sorted@.contains(r@[i]));
                vstd::seq_lib::to_multiset_contains::<String>(sorted@, r@[i]);
                vstd::seq_lib::to_multiset_contains::<String>(v@, r@[i]);
                assert(v@.contains(r@[i]));
                let j = choose|j: int| 0 <= j < v@.len() && v@[j] == r@[i];
                assert(str_views(v@)[j] == x);
                assert(str_views(v@).contains(x));
            }
            if str_views(v@).contains(x) {
                let k = choose|k: int| 0 <= k < str_views(v@).len() && str_views(v@)[k] == x;
                assert(v@.contains(v@[k]));
                vstd::seq_lib::to_multiset_contains::<String>(v@, v@[k]);
                vstd::seq_lib::to_multiset_contains::<String>(sorted@, v@[k]);
                assert(sorted@.contains(v@[k]));
                let sidx = choose|sidx: int| 0 <= sidx < sorted@.len() && sorted@[sidx] == v@[k];
                assert(sorted@[sidx] == v@[k]);
                let y = choose|y: String|
                    #[trigger] r@.contains(y) && y.le_spec(&sorted@[sidx]) && sorted@[
                    sidx].le_spec(&y);
                assert(r@.contains(y) && y.le_spec(&sorted@[sidx]) && sorted@[sidx].le_spec(&y));
                crate::order::lemma_lex_le_antisymmetric(y@, sorted@[sidx]@);
                assert(y@ == x);
                let ridx = choose|ridx: int| 0 <= ridx < r@.len() && r@[ridx] == y;
                assert(str_views(r@)[ridx] == x);
                assert(str_views(r@).contains(x));
            }
        }
    }
    r
}

/// The per-package configuration entry for a name, if any.
pub open spec fn spec_crate_config(cfg: Seq<(String, CrateConfig)>, name: Seq<char>) -> Option<
    CrateConfig,
>
    decreases cfg.len(),
{
    if cfg.len() == 0 {
        None
    } else if cfg[0].0@ == name {
        Some(cfg[0].1)
    } else {
        spec_crate_config(cfg.drop_first(), name)
    }
}

/// Find the per-package configuration for a package name.
fn find_crate_config<'a>(cfg: &'a Vec<(String, CrateConfig)>, name: &str) -> (r: Option<
    &'a CrateConfig,
>)
    ensures
        match r {
            Some(c) => spec_crate_config(cfg@, name@) == Some(*c),
            None => spec_crate_config(cfg@, name@) is None,
        },
{
    let mut i: usize = 0;
    proof {
        assert(cfg@.skip(0) =~= cfg@);
    }
    while i < cfg.len()
        invariant
            0 <= i <= cfg@.len(),
            spec_crate_config(cfg@, name@) == spec_crate_config(cfg@.skip(i as int), name@),
        decreases cfg@.len() - i,
    {
        proof {
            assert(cfg@.skip(i as int)[0] == cfg@[i as int]);
            assert(cfg@.skip(i as int).drop_first() =~= cfg@.skip(i + 1));
        }
        if str_eq(cfg[i].0.as_str(), name) {
            return Some(&cfg[i].1);
        }
        i = i + 1;
    }
    proof {
        assert(cfg@.skip(cfg@.len() as int) =~= Seq::<(String, CrateConfig)>::empty());
    }
    None
}

/// A name occurs in an exclusion list.
pub open spec fn name_in(list: Seq<String>, n: Seq<char>) -> bool {
    exists|i: int| 0 <= i < list.len() && (#[trigger] list[i])@ == n
}

/// Decide whether a name occurs in an exclusion list.
fn name_in_list(list: &Vec<String>, n: &str) -> (r: bool)
    ensures
        r == name_in(list@, n@),
{
    let mut i: usize = 0;
    while i < list.len()
        invariant
            0 <= i <= list@.len(),
            forall|j: int| 0 <= j < i ==> (#[trigger] list@[j])@ != n@,
        decreases list@.len() - i,
    {
        if str_eq(list[i].as_str(), n) {
            return true;
        }
        i = i + 1;
    }
    proof {
        if name_in(list@, n@) {
            let j = choose|j: int| 0 <= j < list@.len() && (#[trigger] list@[j])@ == n@;
        }
    }
    false
}

/// The edges that survive the exclusion lists, in order.
pub open spec fn spec_filtered(
    deps: Seq<DepOfDep>,
    per: Seq<String>,
    all: Seq<String>,
) -> Seq<DepOfDep>
    decreases deps.len(),
{
    if deps.len() == 0 {
        Seq::empty()
    } else if name_in(per, deps.last().package_name@) || name_in(all, deps.last().package_name@) {
        spec_filtered(deps.drop_last(), per, all)
    } else {
        spec_filtered(deps.drop_last(), per, all).push(deps.last())
    }
}

/// Drop the edges whose package name stands in either exclusion list.
fn filter_deps(deps: Vec<DepOfDep>, per: &Vec<String>, all: &Vec<String>) -> (r: Vec<DepOfDep>)
    ensures
        r@ == spec_filtered(deps@, per@, all@),
{
    let ghost orig = deps@;
    let mut rest = deps;
    let mut out: Vec<DepOfDep> = Vec::new();
    let ghost mut i: int = 0;
    while rest.len() > 0
        invariant
            0 <= i,
            i + rest@.len() == orig.len(),
            rest@ == orig.skip(i),
            out@ == spec_filtered(orig.take(i), per@, all@),
        decreases rest@.len(),
    {
        let d = rest.remove(0);
        proof {
            assert(orig.skip(i)[0] == orig[i]);
            assert(d == orig[i]);
            assert forall|j: int|
                0 <= j < rest@.len() implies rest@[j] == #[trigger] orig.skip(i + 1)[j] by {
                assert(rest@[j] == orig.skip(i)[j + 1]);
                assert(orig.skip(i)[j + 1] == orig[i + 1 + j]);
            }
            assert(rest@ =~= orig.skip(i + 1));
            assert(orig.take(i + 1).drop_last() =~= orig.take(i));
            assert(orig.take(i + 1).last() == orig[i]);
        }
        let keep_per = name_in_list(per, d.package_name.as_str());
        let keep_all = name_in_list(all, d.package_name.as_str());
        if !keep_per && !keep_all {
            out.push(d);
        }
        proof {
            i = i + 1;
        }
    }
    proof {
        assert(orig.take(orig.len() as int) =~= orig);
    }
    out
}

/// The aliased-dependency renames of a filtered edge list: one entry for each
/// edge whose use name differs from its normalized target name.
pub open spec fn spec_aliased(fil: Seq<DepOfDep>) -> Seq<(Seq<char>, Seq<char>)>
    decreases fil.len(),
{
    if fil.len() == 0 {
        Seq::empty()
    } else {
        let rest = spec_aliased(fil.drop_last());
        let d = fil.last();
        if normalized_name(d.package_name@) != d.use_name@ {
            rest.push(
                (d.use_name@, ":"@ + normalized_name(d.package_name@) + "__rlib"@),
            )
        } else {
            rest
        }
    }
}

/// The view of an aliased-dependency list.
pub open spec fn alias_views(v: Seq<(String, String)>) -> Seq<(Seq<char>, Seq<char>)> {
    v.map_values(|p: (String, String)| (p.0@, p.1@))
}

/// Collect the aliased-dependency renames of the filtered edges.
fn collect_aliased(fil: &Vec<DepOfDep>) -> (r: Vec<(String, String)>)
    ensures
        alias_views(r@) == spec_aliased(fil@),
{
    let mut out: Vec<(String, String)> = Vec::new();
    let mut i: usize = 0;
    proof {
        assert(fil@.take(0) =~= Seq::<DepOfDep>::empty());
        assert(alias_views(out@) =~= Seq::<(Seq<char>, Seq<char>)>::empty());
    }
    while i < fil.len()
        invariant
            0 <= i <= fil@.len(),
            alias_views(out@) == spec_aliased(fil@.take(i as int)),
        decreases fil@.len() - i,
    {
        let ghost prev = alias_views(out@);
        let target_name = normalize_target_name(fil[i].package_name.as_str());
        proof {
            assert(fil@.take(i + 1).drop_last() =~= fil@.take(i as int));
            assert(fil@.take(i + 1).last() == fil@[i as int]);
        }
        if !str_eq(target_name.as_str(), fil[i].use_name.as_str()) {
            let use_name = fil[i].use_name.clone();
            let mut target = concat2(":", target_name.as_str());
            target.append("__rlib");
            out.push((use_name, target));
            proof {
                assert((":"@ + normalized_name(fil@[i as int].package_name@)) + "__rlib"@
                    =~= ":"@ + normalized_name(fil@[i as int].package_name@) + "__rlib"@);
                assert(alias_views(out@) =~= prev.push(
                    (
                        fil@[i as int].use_name@,
                        ":"@ + normalized_name(fil@[i as int].package_name@) + "__rlib"@,
                    ),
                ));
            }
        }
        i = i + 1;
    }
    proof {
        assert(fil@.take(fil@.len() as int) =~= fil@);
    }
    out
}

/// Drop the dependency groups entirely when they are one empty unconditional
/// group, so the rule carries no dependency list at all.
fn clear_if_single_empty(groups: Vec<DepGroup>) -> (r: Vec<DepGroup>)
    ensures
        (groups@.len() == 1 && group_views(groups@)[0].packages.len() == 0) ==> r@.len() == 0,
        !(groups@.len() == 1 && group_views(groups@)[0].packages.len() == 0) ==> r@ == groups@,
{
    if groups.len() == 1 && groups[0].packages.len() == 0 {
        proof {
            assert(group_views(groups@)[0].packages.len() == groups@[0].packages@.len());
        }
        Vec::new()
    } else {
        proof {
            if groups@.len() >= 1 {
                assert(group_views(groups@)[0].packages.len() == groups@[0].packages@.len());
            }
        }
        groups
    }
}

/// Append one string list to another.
fn append_strings(a: &mut Vec<String>, b: Vec<String>)
    ensures
        final(a)@ == old(a)@ + b@,
{
    let ghost astart = a@;
    let ghost borig = b@;
    let mut rest = b;
    let ghost mut i: int = 0;
    while rest.len() > 0
        invariant
            0 <= i,
            i + rest@.len() == borig.len(),
            rest@ == borig.skip(i),
            a@ == astart + borig.take(i),
        decreases rest@.len(),
    {
        let x = rest.remove(0);
        proof {
            assert(borig.skip(i)[0] == borig[i]);
            assert forall|j: int|
                0 <= j < rest@.len() implies rest@[j] == #[trigger] borig.skip(i + 1)[j] by {
                assert(rest@[j] == borig.skip(i)[j + 1]);
                assert(borig.skip(i)[j + 1] == borig[i + 1 + j]);
            }
            assert(rest@ =~= borig.skip(i + 1));
        }
        a.push(x);
        proof {
            i = i + 1;
            assert(borig.take(i) =~= borig.take(i - 1).push(borig[i - 1]));
            assert(a@ =~= astart + borig.take(i));
        }
    }
    proof {
        assert(borig.take(borig.len() as int) =~= borig);
        assert(a@ =~= astart + borig);
    }
}

/// Some edge of the list cannot be translated and yields this error.
pub open spec fn some_edge_errs(edges: Seq<DepOfDep>, e: CondError) -> bool {
    exists|m: int|
        0 <= m < edges.len() && spec_edge_cond(#[trigger] edges[m]) == Err::<
            Option<Seq<char>>,
            CondError,
        >(e)
}

/// The per-package exclusion list configured for a package name.
pub open spec fn spec_per_excl(cfg: BuildConfig, name: Seq<char>) -> Seq<String> {
    match spec_crate_config(cfg.per_crate_config@, name) {
        Some(c) => c.exclude_deps_in_gn@,
        None => Seq::empty(),
    }
}

/// The per-package extra key/value pairs configured for a package name.
pub open spec fn spec_per_extra(cfg: BuildConfig, name: Seq<char>) -> Seq<
    (String, serde_json::Value),
> {
    match spec_crate_config(cfg.per_crate_config@, name) {
        Some(c) => c.extra_kv@,
        None => Seq::empty(),
    }
}

/// An empty edge list grouped to one empty unconditional group, and the rule
/// then carries no dependency list; a nonempty list is grouped canonically.
pub open spec fn grouping_or_cleared(
    edges: Seq<DepOfDep>,
    use_epochs: bool,
    groups: Seq<DepGroup>,
) -> bool {
    &&& (edges.len() == 0 ==> groups.len() == 0)
    &&& (edges.len() > 0 ==> valid_grouping(edges, use_epochs, group_views(groups)))
}

proof fn lemma_clear_iff(edges: Seq<DepOfDep>, use_epochs: bool, gv: Seq<GroupView>)
    requires
        valid_grouping(edges, use_epochs, gv),
    ensures
        (edges.len() == 0) <==> (gv.len() == 1 && gv[0].packages.len() == 0),
{
    if edges.len() == 0 {
        assert forall|k: int| 0 <= k < gv.len() implies (#[trigger] gv[k]).packages.len()
            == 0 by {
            if gv[k].packages.len() > 0 {
                assert(group_has(gv, gv[k].cond, gv[k].packages[0]));
            }
        }
        assert(gv.len() >= 1);
        if gv.len() > 1 {
            assert(gv[1].packages.len() >= 1);
        }
    } else {
        assert(spec_edge_cond(edges[0]) is Ok);
        assert(group_has(gv, spec_edge_cond(edges[0])->Ok_0, spec_edge_pkg(edges[0], use_epochs)));
        if gv.len() == 1 && gv[0].packages.len() == 0 {
            let (k, i): (int, int) = choose|k: int, i: int|
                0 <= k < gv.len() && 0 <= i < gv[k].packages.len() && gv[k].cond
                    == spec_edge_cond(edges[0])->Ok_0 && gv[k].packages[i] == spec_edge_pkg(
                    edges[0],
                    use_epochs,
                );
            assert(false);
        }
    }
}

/// Group an edge list and elide a dependency list that came out empty.
fn grouped_cleared(edges: &Vec<DepOfDep>, use_epochs: bool) -> (r: Result<
    Vec<DepGroup>,
    CondError,
>)
    ensures
        match r {
            Ok(groups) => grouping_or_cleared(edges@, use_epochs, groups@),
            Err(e) => some_edge_errs(edges@, e),
        },
{
    let groups = match group_deps(edges, use_epochs) {
        Ok(g) => g,
        Err(e) => {
            return Err(e);
        },
    };
    proof {
        lemma_clear_iff(edges@, use_epochs, group_views(groups@));
        assert(group_views(groups@).len() == groups@.len());
    }
    Ok(clear_if_single_empty(groups))
}

/// What the rule of one standard-library package must be, down to every
/// field. `nr` is the produced (name, rule) pair.
pub open spec fn spec_std_rule(
    dep: Package,
    files: CrateFiles,
    cfg: BuildConfig,
    nr: (String, Rule),
) -> bool {
    let pexcl = spec_per_excl(cfg, dep.package_name@);
    let aexcl = cfg.all_config.exclude_deps_in_gn@;
    let fil = spec_filtered(dep.dependencies@, pexcl, aexcl);
    let filb = spec_filtered(dep.build_dependencies@, pexcl, aexcl);
    &&& nr.0@ == normalized_name(dep.package_name@)
    &&& nr.1 matches Rule::Concrete { common, details } && {
                    &&& common.testonly == false
                    &&& common.public_visibility == true
                    &&& details.crate_name is None
                    &&& details.epoch is None
                    &&& details.dep_on_lib == false
                    &&& details.crate_type@ == "rlib"@
                    &&& details.crate_root@ == "//"@ + dep.lib_target->0.root@
                    &&& str_views(details.sources@) == gn_path_views(files.sources@)
                    &&& str_views(details.inputs@) == gn_path_views(files.inputs@)
                    &&& details.edition@ == dep.edition@
                    &&& details.cargo_pkg_version@ == dep.version@
                    &&& (dep.authors@.len() == 0 ==> details.cargo_pkg_authors is None)
                    &&& (dep.authors@.len() > 0 ==> (details.cargo_pkg_authors matches Some(a)
                        && a@ == join_with(str_views(dep.authors@), ", "@)))
                    &&& details.cargo_pkg_name@ == dep.package_name@
                    &&& (dep.description is None ==> details.cargo_pkg_description is None)
                    &&& (dep.description matches Some(d)
                        ==> (details.cargo_pkg_description matches Some(t) && t@ == trimmed_end(
                        d@,
                    )))
                    &&& (dep.build_script is None ==> details.build_root is None && str_views(
                        details.build_script_sources@,
                    ) == gn_path_views(files.build_script_sources@))
                    &&& (dep.build_script matches Some(p) ==> (details.build_root matches Some(b)
                        && b@ == "//"@ + p@ && str_views(details.build_script_sources@) == seq![
                        "//"@ + p@,
                    ] + gn_path_views(files.build_script_sources@)))
                    &&& str_views(details.build_script_inputs@) == gn_path_views(
                        files.build_script_inputs@,
                    )
                    &&& details.build_script_outputs@.len() == 0
                    &&& sorted_distinct(details.features@)
                    &&& (forall|x: Seq<char>|
                        #[trigger] str_views(details.features@).contains(x) <==> (
                        match spec_kind_features(dep.dependency_kinds@, DepKind::Normal) {
                            Some(f) => str_views(f).contains(x),
                            None => false,
                        }))
                    &&& alias_views(details.aliased_deps@) == spec_aliased(fil)
                    &&& grouping_or_cleared(fil, false, details.deps@)
                    &&& valid_grouping(filb, false, group_views(details.build_deps@))
                    &&& (forall|k: Seq<char>|
                        #[trigger] kv_lookup(details.extra_kv@, k) == merged_lookup(
                            cfg.all_config.extra_kv@,
                            spec_per_extra(cfg, dep.package_name@),
                            k,
                        ))
                }
}

/// Some surviving dependency or build dependency of the package carries a
/// platform the tables do not know, yielding this error.
pub open spec fn spec_std_errs(dep: Package, cfg: BuildConfig, e: CondError) -> bool {
    let pexcl = spec_per_excl(cfg, dep.package_name@);
    let aexcl = cfg.all_config.exclude_deps_in_gn@;
    ||| some_edge_errs(spec_filtered(dep.dependencies@, pexcl, aexcl), e)
    ||| some_edge_errs(spec_filtered(dep.build_dependencies@, pexcl, aexcl), e)
}

/// Every surviving dependency edge of the package translates.
pub open spec fn spec_std_edges_ok(dep: Package, cfg: BuildConfig) -> bool {
    let pexcl = spec_per_excl(cfg, dep.package_name@);
    let aexcl = cfg.all_config.exclude_deps_in_gn@;
    let fil = spec_filtered(dep.dependencies@, pexcl, aexcl);
    let filb = spec_filtered(dep.build_dependencies@, pexcl, aexcl);
    &&& (forall|m: int| 0 <= m < fil.len() ==> spec_edge_cond(#[trigger] fil[m]) is Ok)
    &&& (forall|m: int| 0 <= m < filb.len() ==> spec_edge_cond(#[trigger] filb[m]) is Ok)
}

/// A rule meeting its contract only exists when every surviving edge
/// translates.
proof fn lemma_std_rule_edges_ok(dep: Package, files: CrateFiles, cfg: BuildConfig, nr: (
    String,
    Rule,
))
    requires
        spec_std_rule(dep, files, cfg, nr),
    ensures
        spec_std_edges_ok(dep, cfg),
{
}

/// Build the one rule of a standard-library package: an `rlib` target with
/// the package metadata, root-absolute paths, normalized features, grouped
/// dependencies after exclusions, and rename entries for aliased
/// dependencies.
#[verifier::rlimit(100)]
pub fn build_rule_from_std_dep(
    dep: Package,
    files: &CrateFiles,
    extra_config: &BuildConfig,
) -> (r: Result<(String, Rule), CondError>)
    requires
        dep.lib_target is Some,
    ensures
        match r {
            Ok(nr) => spec_std_rule(dep, *files, *extra_config, nr),
            Err(e) => spec_std_errs(dep, *extra_config, e),
        },
{
    let Package {
        package_name,
        version,
        edition,
        authors,
        description,
        epoch: _,
        lib_target,
        bin_targets: _,
        build_script,
        dependency_kinds,
        dependencies,
        build_dependencies,
    } = dep;
    let lib = lib_target.unwrap();
    let crate_root = concat2("//", lib.root.as_str());
    let sources = gn_paths(&files.sources);
    let inputs = gn_paths(&files.inputs);
    let cargo_pkg_authors: Option<String> = if authors.len() == 0 {
        None
    } else {
        Some(join_strings(&authors, ", "))
    };
    let cargo_pkg_description: Option<String> = match &description {
        None => None,
        Some(d) => Some(trim_end_str(d.as_str())),
    };
    let build_root: Option<String> = match &build_script {
        None => None,
        Some(p) => Some(concat2("//", p.as_str())),
    };
    let mut build_script_sources: Vec<String> = Vec::new();
    match &build_script {
        None => {},
        Some(p) => {
            build_script_sources.push(concat2("//", p.as_str()));
        },
    }
    append_strings(&mut build_script_sources, gn_paths(&files.build_script_sources));
    proof {
        if dep.build_script is Some {
            assert(str_views(build_script_sources@) =~= seq!["//"@ + dep.build_script->0@]
                + gn_path_views(files.build_script_sources@));
        } else {
            assert(str_views(build_script_sources@) =~= gn_path_views(
                files.build_script_sources@,
            ));
        }
    }
    let build_script_inputs = gn_paths(&files.build_script_inputs);
    let features = normalize_features(kind_features(&dependency_kinds, DepKind::Normal));
    let empty_excl: Vec<String> = Vec::new();
    let empty_extra: Vec<(String, serde_json::Value)> = Vec::new();
    let per = find_crate_config(&extra_config.per_crate_config, package_name.as_str());
    let (per_excl, per_extra): (&Vec<String>, &Vec<(String, serde_json::Value)>) = match per {
        Some(c) => (&c.exclude_deps_in_gn, &c.extra_kv),
        None => (&empty_excl, &empty_extra),
    };
    let fil = filter_deps(dependencies, per_excl, &extra_config.all_config.exclude_deps_in_gn);
    let filb = filter_deps(
        build_dependencies,
        per_excl,
        &extra_config.all_config.exclude_deps_in_gn,
    );
    let deps_groups = match grouped_cleared(&fil, false) {
        Ok(g) => g,
        Err(e) => {
            return Err(e);
        },
    };
    let build_groups = match group_deps(&filb, false) {
        Ok(g) => g,
        Err(e) => {
            return Err(e);
        },
    };
    let aliased_deps = collect_aliased(&fil);
    let extra_kv = merge_extra_kv(&extra_config.all_config.extra_kv, per_extra);
    let details = RuleConcrete {
        crate_name: None,
        epoch: None,
        crate_type: String::from_str("rlib"),
        crate_root,
        sources,
        inputs,
        edition,
        cargo_pkg_version: version,
        cargo_pkg_authors,
        cargo_pkg_name: package_name.clone(),
        cargo_pkg_description,
        deps: deps_groups,
        build_deps: build_groups,
        aliased_deps,
        features,
        build_root,
        build_script_sources,
        build_script_inputs,
        build_script_outputs: Vec::new(),
        extra_kv,
        dep_on_lib: false,
    };
    let name = normalize_target_name(package_name.as_str());
    Ok(
        (
            name,
            Rule::Concrete {
                common: RuleCommon { testonly: false, public_visibility: true },
                details,
            },
        ),
    )
}

/// The fields every rule of one chromium package shares. `bso` is the
/// configured list of build-script output names.
pub open spec fn spec_chromium_common(
    dep: Package,
    files: CrateFiles,
    bso: Seq<Seq<char>>,
    d: RuleConcrete,
) -> bool {
    &&& d.edition@ == dep.edition@
    &&& d.cargo_pkg_version@ == dep.version@
    &&& (dep.authors@.len() == 0 ==> d.cargo_pkg_authors is None)
    &&& (dep.authors@.len() > 0 ==> (d.cargo_pkg_authors matches Some(a) && a@ == join_with(
        str_views(dep.authors@),
        ", "@,
    )))
    &&& d.cargo_pkg_name@ == dep.package_name@
    &&& (dep.description is None ==> d.cargo_pkg_description is None)
    &&& (dep.description matches Some(x) ==> (d.cargo_pkg_description matches Some(t) && t@
        == trimmed_end(x@)))
    &&& (dep.build_script is None ==> d.build_root is None && d.build_script_sources@.len() == 0)
    &&& (dep.build_script matches Some(p) ==> (d.build_root matches Some(b) && b@ == p@
        && str_views(d.build_script_sources@) == seq![p@]))
    &&& str_views(d.build_script_outputs@) == bso
    &&& d.build_script_inputs@.len() == 0
    &&& str_views(d.sources@) == gn_path_views(files.sources@)
    &&& str_views(d.inputs@) == gn_path_views(files.inputs@)
    &&& d.aliased_deps@.len() == 0
    &&& d.extra_kv@.len() == 0
    &&& grouping_or_cleared(dep.build_dependencies@, true, d.build_deps@)
}

/// One binary rule of a chromium package.
pub open spec fn spec_bin_rule(
    dep: Package,
    files: CrateFiles,
    bso: Seq<Seq<char>>,
    bt: BinTarget,
    nr: (String, Rule),
) -> bool {
    &&& nr.0@ == normalized_name(bt.name@)
    &&& nr.1 matches Rule::Concrete { common, details } && {
        &&& common.testonly == false
        &&& common.public_visibility == true
        &&& spec_chromium_common(dep, files, bso, details)
        &&& details.crate_name is None
        &&& details.epoch is None
        &&& details.crate_type@ == "bin"@
        &&& details.crate_root@ == bt.root@
        &&& (match spec_kind_features(dep.dependency_kinds@, DepKind::Normal) {
            Some(f) => details.features@ == f,
            None => details.features@.len() == 0,
        })
        &&& details.dep_on_lib == (dep.lib_target is Some)
        &&& (dep.dependencies@.len() > 0 ==> valid_grouping(
            dep.dependencies@,
            true,
            group_views(details.deps@),
        ))
        &&& (dep.dependencies@.len() == 0 && dep.lib_target is Some ==> details.deps@.len() == 1
            && group_views(details.deps@)[0].cond is None && group_views(
            details.deps@,
        )[0].packages.len() == 0)
        &&& (dep.dependencies@.len() == 0 && dep.lib_target is None ==> details.deps@.len() == 0)
    }
}

/// One library rule (normal or build-support) of a chromium package. `vis`
/// is the package's configured visibility policy.
pub open spec fn spec_lib_rule(
    dep: Package,
    files: CrateFiles,
    bso: Seq<Seq<char>>,
    vis: Visibility,
    kind: DepKind,
    nr: (String, Rule),
) -> bool {
    &&& nr.1 matches Rule::Concrete { common, details } && {
        &&& common.testonly == false
        &&& common.public_visibility == (vis == Visibility::Public)
        &&& spec_chromium_common(dep, files, bso, details)
        &&& (details.crate_name matches Some(n) && n@ == normalized_name(dep.package_name@))
        &&& (details.epoch matches Some(e) && e@ == dep.epoch@)
        &&& (dep.lib_target matches Some(lt) && details.crate_type@ == lt.lib_type@
            && details.crate_root@ == lt.root@)
        &&& (match spec_kind_features(dep.dependency_kinds@, kind) {
            Some(f) => details.features@ == f,
            None => false,
        })
        &&& details.dep_on_lib == false
        &&& grouping_or_cleared(dep.dependencies@, true, details.deps@)
    }
}

/// The package yields at least one rule: it has a binary target, or a
/// library target with a dependency kind recorded.
pub open spec fn spec_pkg_emits(dep: Package) -> bool {
    ||| dep.bin_targets@.len() > 0
    ||| (dep.lib_target is Some && (spec_kind_features(dep.dependency_kinds@, DepKind::Normal)
        is Some || spec_kind_features(dep.dependency_kinds@, DepKind::Build) is Some))
}

/// How many rules the package yields under a visibility policy.
pub open spec fn spec_rule_count(dep: Package, vis: Visibility) -> int {
    let has_normal = spec_kind_features(dep.dependency_kinds@, DepKind::Normal) is Some;
    let has_build = spec_kind_features(dep.dependency_kinds@, DepKind::Build) is Some;
    let totp = vis == Visibility::TestOnlyAndThirdParty;
    (dep.bin_targets@.len() as int) + (if dep.lib_target is Some {
        (if has_normal {
            1int
        } else {
            0int
        }) + (if has_normal && totp {
            1int
        } else {
            0int
        }) + (if has_build {
            1int
        } else {
            0int
        })
    } else {
        0int
    })
}

/// Some dependency or build-dependency edge of the package carries a
/// platform the tables do not know, yielding this error.
pub open spec fn spec_chromium_errs(dep: Package, e: CondError) -> bool {
    ||| some_edge_errs(dep.dependencies@, e)
    ||| some_edge_errs(dep.build_dependencies@, e)
}

/// Every dependency and build-dependency edge of the package translates.
pub open spec fn spec_chromium_edges_ok(dep: Package) -> bool {
    &&& (forall|m: int|
        0 <= m < dep.dependencies@.len() ==> spec_edge_cond(#[trigger] dep.dependencies@[m])
            is Ok)
    &&& (forall|m: int|
        0 <= m < dep.build_dependencies@.len() ==> spec_edge_cond(
            #[trigger] dep.build_dependencies@[m],
        ) is Ok)
}

proof fn lemma_grouping_edges_ok(edges: Seq<DepOfDep>, use_epochs: bool, groups: Seq<DepGroup>)
    requires
        grouping_or_cleared(edges, use_epochs, groups),
    ensures
        forall|m: int| 0 <= m < edges.len() ==> spec_edge_cond(#[trigger] edges[m]) is Ok,
{
    if edges.len() > 0 {
        assert(valid_grouping(edges, use_epochs, group_views(groups)));
    }
}

/// The whole build file of one chromium package that yields rules: rules for
/// its binaries in declaration order, then the library rule, the test-support
/// alias where the policy calls for one, and the build-script support rule.
pub open spec fn spec_package_rules(
    dep: Package,
    files: CrateFiles,
    bso: Seq<Seq<char>>,
    vis: Visibility,
    id: PackageId,
    bf: BuildFile,
) -> bool {
    let nbins = dep.bin_targets@.len() as int;
    let has_lib = dep.lib_target is Some;
    let has_normal = spec_kind_features(dep.dependency_kinds@, DepKind::Normal) is Some;
    let has_build = spec_kind_features(dep.dependency_kinds@, DepKind::Build) is Some;
    let totp = vis == Visibility::TestOnlyAndThirdParty;
    let rules = bf.rules@;
    &&& id@.name == normalized_name(dep.package_name@)
    &&& id@.epoch == Some(dep.epoch@)
    &&& rules.len() == spec_rule_count(dep, vis)
    &&& (forall|b: int|
        0 <= b < nbins ==> spec_bin_rule(dep, files, bso, dep.bin_targets@[b], #[trigger] rules[b]))
    &&& (has_lib && has_normal ==> rules[nbins].0@ == "lib"@ && spec_lib_rule(
        dep,
        files,
        bso,
        vis,
        DepKind::Normal,
        rules[nbins],
    ))
    &&& (has_lib && has_normal && totp ==> rules[nbins + 1].0@ == "test_support"@ && (rules[nbins
        + 1].1 matches Rule::Group { common, concrete_target } && common.testonly == true
        && common.public_visibility == true && concrete_target@ == "lib"@))
    &&& (has_lib && has_build ==> {
        let bidx = nbins + (if has_normal {
            1int
        } else {
            0int
        }) + (if has_normal && totp {
            1int
        } else {
            0int
        });
        rules[bidx].0@ == "buildrs_support"@ && spec_lib_rule(
            dep,
            files,
            bso,
            vis,
            DepKind::Build,
            rules[bidx],
        )
    })
}

/// Build the shared part of every rule of one chromium package.
#[verifier::rlimit(100)]
fn chromium_rule_base(dep: &Package, files: &CrateFiles, metadata: &PerCrateMetadata) -> (r:
    Result<RuleConcrete, CondError>)
    ensures
        match r {
            Ok(d) => {
                &&& spec_chromium_common(*dep, *files, str_views(metadata.build_script_outputs@), d)
                &&& d.crate_name is None
                &&& d.epoch is None
                &&& d.crate_type@.len() == 0
                &&& d.crate_root@.len() == 0
                &&& d.features@.len() == 0
                &&& d.dep_on_lib == false
                &&& grouping_or_cleared(dep.dependencies@, true, d.deps@)
            },
            Err(e) => some_edge_errs(dep.dependencies@, e) || some_edge_errs(
                dep.build_dependencies@,
                e,
            ),
        },
{
    let deps_groups = match grouped_cleared(&dep.dependencies, true) {
        Ok(g) => g,
        Err(e) => {
            return Err(e);
        },
    };
    let build_groups = match grouped_cleared(&dep.build_dependencies, true) {
        Ok(g) => g,
        Err(e) => {
            return Err(e);
        },
    };
    let cargo_pkg_authors: Option<String> = if dep.authors.len() == 0 {
        None
    } else {
        Some(join_strings(&dep.authors, ", "))
    };
    let cargo_pkg_description: Option<String> = match &dep.description {
        None => None,
        Some(d) => Some(trim_end_str(d.as_str())),
    };
    let build_root: Option<String> = match &dep.build_script {
        None => None,
        Some(p) => Some(p.clone()),
    };
    let mut build_script_sources: Vec<String> = Vec::new();
    match &dep.build_script {
        None => {},
        Some(p) => {
            build_script_sources.push(p.clone());
            proof {
                assert(str_views(build_script_sources@) =~= seq![dep.build_script->0@]);
            }
        },
    }
    Ok(
        RuleConcrete {
            crate_name: None,
            epoch: None,
            crate_type: String::new(),
            crate_root: String::new(),
            sources: gn_paths(&files.sources),
            inputs: gn_paths(&files.inputs),
            edition: dep.edition.clone(),
            cargo_pkg_version: dep.version.clone(),
            cargo_pkg_authors,
            cargo_pkg_name: dep.package_name.clone(),
            cargo_pkg_description,
            deps: deps_groups,
            build_deps: build_groups,
            aliased_deps: Vec::new(),
            features: Vec::new(),
            build_root,
            build_script_sources,
            build_script_inputs: Vec::new(),
            build_script_outputs: clone_strings(&metadata.build_script_outputs),
            extra_kv: Vec::new(),
            dep_on_lib: false,
        },
    )
}

/// Synthesize the build file of one chromium third-party package: a rule per
/// binary target, a library rule per dependency kind present, and, for a
/// test-only-and-third-party package, a public testonly alias to the
/// restricted library rule. A package with no rules is omitted.
#[verifier::rlimit(100)]
pub fn make_build_file_for_chromium_dep(
    dep: Package,
    files: &CrateFiles,
    metadata: PerCrateMetadata,
) -> (r: Result<Option<(PackageId, BuildFile)>, CondError>)
    ensures
        match r {
            Ok(opt) => {
                &&& (opt is None <==> !spec_pkg_emits(dep))
                &&& (opt matches Some(idbf) ==> spec_package_rules(
                    dep,
                    *files,
                    str_views(metadata.build_script_outputs@),
                    metadata.visibility,
                    idbf.0,
                    idbf.1,
                ) && spec_chromium_edges_ok(dep))
            },
            Err(e) => spec_pkg_emits(dep) && spec_chromium_errs(dep, e),
        },
{
    let mut rules: Vec<(String, Rule)> = Vec::new();
    let mut b: usize = 0;
    while b < dep.bin_targets.len()
        invariant
            0 <= b <= dep.bin_targets@.len(),
            rules@.len() == b,
            forall|j: int|
                0 <= j < b ==> spec_bin_rule(
                    dep,
                    *files,
                    str_views(metadata.build_script_outputs@),
                    dep.bin_targets@[j],
                    #[trigger] rules@[j],
                ),
            rules@.len() > 0 ==> spec_chromium_edges_ok(dep),
        decreases dep.bin_targets@.len() - b,
    {
        let mut details = match chromium_rule_base(&dep, files, &metadata) {
            Ok(d) => d,
            Err(e) => {
                proof {
                    assert(dep.bin_targets@.len() > 0);
                    assert(spec_pkg_emits(dep));
                }
                return Err(e);
            },
        };
        proof {
            lemma_grouping_edges_ok(dep.dependencies@, true, details.deps@);
            lemma_grouping_edges_ok(dep.build_dependencies@, true, details.build_deps@);
            assert(spec_chromium_edges_ok(dep));
        }
        details.crate_type = String::from_str("bin");
        details.crate_root = dep.bin_targets[b].root.clone();
        details.features = kind_features(&dep.dependency_kinds, DepKind::Normal);
        match &dep.lib_target {
            None => {},
            Some(_) => {
                details.dep_on_lib = true;
                if details.deps.len() == 0 {
                    proof {
                        lemma_clear_iff_inverse(dep.dependencies@, details.deps@);
                    }
                    details.deps.push(DepGroup { cond: None, packages: Vec::new() });
                    proof {
                        assert(group_views(details.deps@)[0].packages.len() == details.deps@[
                            0
                        ].packages@.len());
                    }
                }
            },
        }
        let name = normalize_target_name(dep.bin_targets[b].name.as_str());
        rules.push((name, Rule::Concrete {
            common: RuleCommon { testonly: false, public_visibility: true },
            details,
        }));
        b = b + 1;
    }
    let ghost nbins = dep.bin_targets@.len() as int;
    match &dep.lib_target {
        None => {},
        Some(lt) => {
            let has_normal = kind_present(&dep.dependency_kinds, DepKind::Normal);
            let has_build = kind_present(&dep.dependency_kinds, DepKind::Build);
            if has_normal {
                let mut details = match chromium_rule_base(&dep, files, &metadata) {
                    Ok(d) => d,
                    Err(e) => {
                        proof {
                            assert(spec_pkg_emits(dep));
                        }
                        return Err(e);
                    },
                };
                proof {
                    lemma_grouping_edges_ok(dep.dependencies@, true, details.deps@);
                    lemma_grouping_edges_ok(dep.build_dependencies@, true, details.build_deps@);
                    assert(spec_chromium_edges_ok(dep));
                }
                details.crate_name = Some(normalize_target_name(dep.package_name.as_str()));
                details.epoch = Some(dep.epoch.clone());
                details.crate_type = lt.lib_type.clone();
                details.crate_root = lt.root.clone();
                details.features = kind_features(&dep.dependency_kinds, DepKind::Normal);
                let public_visibility = match metadata.visibility {
                    Visibility::Public => true,
                    Visibility::ThirdParty => false,
                    Visibility::TestOnlyAndThirdParty => false,
                };
                rules.push((String::from_str("lib"), Rule::Concrete {
                    common: RuleCommon { testonly: false, public_visibility },
                    details,
                }));
                if metadata.visibility == Visibility::TestOnlyAndThirdParty {
                    rules.push((String::from_str("test_support"), Rule::Group {
                        common: RuleCommon { testonly: true, public_visibility: true },
                        concrete_target: String::from_str("lib"),
                    }));
                }
            }
            if has_build {
                let mut details = match chromium_rule_base(&dep, files, &metadata) {
                    Ok(d) => d,
                    Err(e) => {
                        proof {
                            assert(spec_pkg_emits(dep));
                        }
                        return Err(e);
                    },
                };
                proof {
                    lemma_grouping_edges_ok(dep.dependencies@, true, details.deps@);
                    lemma_grouping_edges_ok(dep.build_dependencies@, true, details.build_deps@);
                    assert(spec_chromium_edges_ok(dep));
                }
                details.crate_name = Some(normalize_target_name(dep.package_name.as_str()));
                details.epoch = Some(dep.epoch.clone());
                details.crate_type = lt.lib_type.clone();
                details.crate_root = lt.root.clone();
                details.features = kind_features(&dep.dependency_kinds, DepKind::Build);
                let public_visibility = match metadata.visibility {
                    Visibility::Public => true,
                    Visibility::ThirdParty => false,
                    Visibility::TestOnlyAndThirdParty => false,
                };
                rules.push((String::from_str("buildrs_support"), Rule::Concrete {
                    common: RuleCommon { testonly: false, public_visibility },
                    details,
                }));
            }
        },
    }
    if rules.len() == 0 {
        return Ok(None);
    }
    let id = PackageId {
        name: normalize_target_name(dep.package_name.as_str()),
        epoch: Some(dep.epoch.clone()),
    };
    Ok(Some((id, BuildFile { rules })))
}

/// Whether any entry of the kind list carries the kind.
fn kind_present(kinds: &Vec<(DepKind, KindInfo)>, k: DepKind) -> (r: bool)
    ensures
        r == (spec_kind_features(kinds@, k) is Some),
{
    let mut i: usize = 0;
    proof {
        assert(kinds@.skip(0) =~= kinds@);
    }
    while i < kinds.len()
        invariant
            0 <= i <= kinds@.len(),
            spec_kind_features(kinds@, k) == spec_kind_features(kinds@.skip(i as int), k),
        decreases kinds@.len() - i,
    {
        proof {
            assert(kinds@.skip(i as int)[0] == kinds@[i as int]);
            assert(kinds@.skip(i as int).drop_first() =~= kinds@.skip(i + 1));
        }
        if kinds[i].0 == k {
            return true;
        }
        i = i + 1;
    }
    proof {
        assert(kinds@.skip(kinds@.len() as int) =~= Seq::<(DepKind, KindInfo)>::empty());
    }
    false
}

proof fn lemma_clear_iff_inverse(edges: Seq<DepOfDep>, groups: Seq<DepGroup>)
    requires
        grouping_or_cleared(edges, true, groups),
        groups.len() == 0,
    ensures
        edges.len() == 0,
{
    if edges.len() > 0 {
        lemma_clear_iff(edges, true, group_views(groups));
    }
}

/// Copy a per-package metadata record.
fn clone_metadata(m: &PerCrateMetadata) -> (r: PerCrateMetadata)
    ensures
        str_views(r.build_script_outputs@) == str_views(m.build_script_outputs@),
        (m.gn_variables is None ==> r.gn_variables is None),
        (m.gn_variables matches Some(g) ==> (r.gn_variables matches Some(h) && h@ == g@)),
        r.visibility == m.visibility,
{
    let gn_variables: Option<String> = match &m.gn_variables {
        None => None,
        Some(g) => Some(g.clone()),
    };
    PerCrateMetadata {
        build_script_outputs: clone_strings(&m.build_script_outputs),
        gn_variables,
        visibility: m.visibility,
    }
}

/// The metadata recorded for a package identity: the first record whose
/// identity has the same value.
pub open spec fn spec_meta_lookup(
    ms: Seq<(PackageId, PerCrateMetadata)>,
    id: crate::group::PkgIdView,
) -> Option<PerCrateMetadata>
    decreases ms.len(),
{
    if ms.len() == 0 {
        None
    } else if ms[0].0@ == id {
        Some(ms[0].1)
    } else {
        spec_meta_lookup(ms.drop_first(), id)
    }
}

/// The build-script output names configured for a package identity.
pub open spec fn spec_meta_bso(
    ms: Seq<(PackageId, PerCrateMetadata)>,
    id: crate::group::PkgIdView,
) -> Seq<Seq<char>> {
    match spec_meta_lookup(ms, id) {
        Some(m) => str_views(m.build_script_outputs@),
        None => Seq::empty(),
    }
}

/// The visibility policy configured for a package identity.
pub open spec fn spec_meta_vis(
    ms: Seq<(PackageId, PerCrateMetadata)>,
    id: crate::group::PkgIdView,
) -> Visibility {
    match spec_meta_lookup(ms, id) {
        Some(m) => m.visibility,
        None => Visibility::ThirdParty,
    }
}

/// The identity a chromium package's build file is keyed by.
pub open spec fn spec_chromium_id(dep: Package) -> crate::group::PkgIdView {
    crate::group::PkgIdView { name: normalized_name(dep.package_name@), epoch: Some(dep.epoch@) }
}

/// The metadata recorded for a package identity, if any.
fn find_metadata<'a>(metadatas: &'a Vec<(PackageId, PerCrateMetadata)>, id: &PackageId) -> (r:
    Option<&'a PerCrateMetadata>)
    ensures
        match r {
            Some(m) => spec_meta_lookup(metadatas@, id@) == Some(*m),
            None => spec_meta_lookup(metadatas@, id@) is None,
        },
{
    let mut i: usize = 0;
    proof {
        assert(metadatas@.skip(0) =~= metadatas@);
    }
    while i < metadatas.len()
        invariant
            0 <= i <= metadatas@.len(),
            spec_meta_lookup(metadatas@, id@) == spec_meta_lookup(
                metadatas@.skip(i as int),
                id@,
            ),
        decreases metadatas@.len() - i,
    {
        proof {
            assert(metadatas@.skip(i as int)[0] == metadatas@[i as int]);
            assert(metadatas@.skip(i as int).drop_first() =~= metadatas@.skip(i + 1));
        }
        let same_name = str_eq(metadatas[i].0.name.as_str(), id.name.as_str());
        let same_epoch: bool = match (&metadatas[i].0.epoch, &id.epoch) {
            (None, None) => true,
            (Some(a), Some(b)) => str_eq(a.as_str(), b.as_str()),
            _ => false,
        };
        proof {
            if same_name && same_epoch {
                assert(metadatas@[i as int].0@ =~= id@);
            } else {
                assert(metadatas@[i as int].0@ != id@) by {
                    if metadatas@[i as int].0@ == id@ {
                        assert(metadatas@[i as int].0@.name == id@.name);
                        assert(metadatas@[i as int].0@.epoch == id@.epoch);
                    }
                }
            }
        }
        if same_name && same_epoch {
            return Some(&metadatas[i].1);
        }
        i = i + 1;
    }
    proof {
        assert(metadatas@.skip(metadatas@.len() as int)
            =~= Seq::<(PackageId, PerCrateMetadata)>::empty());
    }
    None
}

/// How many of the packages yield rules.
pub open spec fn emit_count(deps: Seq<Package>) -> int
    decreases deps.len(),
{
    if deps.len() == 0 {
        0
    } else {
        emit_count(deps.drop_last()) + if spec_pkg_emits(deps.last()) {
            1int
        } else {
            0int
        }
    }
}

/// Build the one build file of the standard library: one rule per package,
/// in input order, each exactly the rule of that package.
pub fn build_file_from_std_deps(
    deps: Vec<Package>,
    files: Vec<CrateFiles>,
    extra_config: &BuildConfig,
) -> (r: Result<BuildFile, CondError>)
    requires
        deps@.len() == files@.len(),
        forall|i: int| 0 <= i < deps@.len() ==> (#[trigger] deps@[i]).lib_target is Some,
    ensures
        match r {
            Ok(bf) => bf.rules@.len() == deps@.len() && (forall|i: int|
                0 <= i < deps@.len() ==> spec_std_rule(
                    #[trigger] deps@[i],
                    files@[i],
                    *extra_config,
                    bf.rules@[i],
                )),
            Err(e) => exists|i: int|
                0 <= i < deps@.len() && spec_std_errs(#[trigger] deps@[i], *extra_config, e) && (
                forall|j: int| 0 <= j < i ==> spec_std_edges_ok(
                    #[trigger] deps@[j],
                    *extra_config,
                )),
        },
{
    let ghost deps_orig = deps@;
    let ghost files_orig = files@;
    let mut drest = deps;
    let mut frest = files;
    let mut rules: Vec<(String, Rule)> = Vec::new();
    let ghost mut i: int = 0;
    while drest.len() > 0
        invariant
            deps_orig == deps@,
            files_orig == files@,
            0 <= i,
            i + drest@.len() == deps_orig.len(),
            drest@ == deps_orig.skip(i),
            frest@.len() == drest@.len(),
            frest@ == files_orig.skip(i),
            files_orig.len() == deps_orig.len(),
            rules@.len() == i,
            forall|j: int| 0 <= j < deps_orig.len() ==> (#[trigger] deps_orig[j]).lib_target
                is Some,
            forall|j: int|
                0 <= j < i ==> spec_std_rule(
                    #[trigger] deps_orig[j],
                    files_orig[j],
                    *extra_config,
                    rules@[j],
                ),
            forall|j: int|
                0 <= j < i ==> spec_std_edges_ok(#[trigger] deps_orig[j], *extra_config),
        decreases drest@.len(),
    {
        let d = drest.remove(0);
        let f = frest.remove(0);
        proof {
            assert(deps_orig.skip(i)[0] == deps_orig[i]);
            assert(files_orig.skip(i)[0] == files_orig[i]);
            assert forall|j: int|
                0 <= j < drest@.len() implies drest@[j] == #[trigger] deps_orig.skip(i + 1)[j] by {
                assert(drest@[j] == deps_orig.skip(i)[j + 1]);
                assert(deps_orig.skip(i)[j + 1] == deps_orig[i + 1 + j]);
            }
            assert(drest@ =~= deps_orig.skip(i + 1));
            assert forall|j: int|
                0 <= j < frest@.len() implies frest@[j] == #[trigger] files_orig.skip(i + 1)[j] by {
                assert(frest@[j] == files_orig.skip(i)[j + 1]);
                assert(files_orig.skip(i)[j + 1] == files_orig[i + 1 + j]);
            }
            assert(frest@ =~= files_orig.skip(i + 1));
        }
        let ghost dsnap = d;
        let nr = match build_rule_from_std_dep(d, &f, extra_config) {
            Ok(nr) => nr,
            Err(e) => {
                proof {
                    assert(dsnap == deps_orig[i]);
                    assert(spec_std_errs(deps_orig[i], *extra_config, e));
                    assert(0 <= i < deps_orig.len() && spec_std_errs(
                        deps_orig[i],
                        *extra_config,
                        e,
                    ) && (forall|j: int|
                        0 <= j < i ==> spec_std_edges_ok(
                            #[trigger] deps_orig[j],
                            *extra_config,
                        )));
                }
                return Err(e);
            },
        };
        rules.push(nr);
        proof {
            assert(dsnap == deps_orig[i]);
            lemma_std_rule_edges_ok(deps_orig[i], files_orig[i], *extra_config, nr);
            i = i + 1;
        }
    }
    Ok(BuildFile { rules })
}

/// Build a build file for each chromium third-party package that yields any
/// rules, keyed by the package's identity: in input order, one entry per
/// package whose synthesis yields rules, each entry being that package's
/// rules under the metadata record found for its identity (or the default
/// record when none is configured).
#[verifier::rlimit(100)]
pub fn build_files_from_chromium_deps(
    deps: Vec<Package>,
    files: Vec<CrateFiles>,
    metadatas: &Vec<(PackageId, PerCrateMetadata)>,
) -> (r: Result<Vec<(PackageId, BuildFile)>, CondError>)
    requires
        deps@.len() == files@.len(),
    ensures
        match r {
            Ok(out) => {
                &&& out@.len() == emit_count(deps@)
                &&& (forall|i: int|
                    0 <= i < deps@.len() && spec_pkg_emits(#[trigger] deps@[i]) ==> {
                        let k = emit_count(deps@.take(i));
                        &&& 0 <= k < out@.len()
                        &&& spec_package_rules(
                            deps@[i],
                            files@[i],
                            spec_meta_bso(metadatas@, spec_chromium_id(deps@[i])),
                            spec_meta_vis(metadatas@, spec_chromium_id(deps@[i])),
                            out@[k].0,
                            out@[k].1,
                        )
                    })
            },
            Err(e) => exists|i: int|
                0 <= i < deps@.len() && spec_pkg_emits(#[trigger] deps@[i]) && spec_chromium_errs(
                    deps@[i],
                    e,
                ) && (forall|j: int|
                    0 <= j < i && spec_pkg_emits(#[trigger] deps@[j])
                        ==> spec_chromium_edges_ok(deps@[j])),
        },
{
    let ghost deps_orig = deps@;
    let ghost files_orig = files@;
    let mut drest = deps;
    let mut frest = files;
    let mut out: Vec<(PackageId, BuildFile)> = Vec::new();
    let ghost mut i: int = 0;
    proof {
        assert(deps_orig.take(0) =~= Seq::<Package>::empty());
    }
    while drest.len() > 0
        invariant
            deps_orig == deps@,
            files_orig == files@,
            0 <= i,
            i + drest@.len() == deps_orig.len(),
            drest@ == deps_orig.skip(i),
            frest@.len() == drest@.len(),
            frest@ == files_orig.skip(i),
            files_orig.len() == deps_orig.len(),
            out@.len() == emit_count(deps_orig.take(i)),
            forall|j: int|
                0 <= j < i && spec_pkg_emits(#[trigger] deps_orig[j]) ==> {
                    let k = emit_count(deps_orig.take(j));
                    &&& 0 <= k < out@.len()
                    &&& spec_package_rules(
                        deps_orig[j],
                        files_orig[j],
                        spec_meta_bso(metadatas@, spec_chromium_id(deps_orig[j])),
                        spec_meta_vis(metadatas@, spec_chromium_id(deps_orig[j])),
                        out@[k].0,
                        out@[k].1,
                    )
                },
            forall|j: int|
                0 <= j < i && spec_pkg_emits(#[trigger] deps_orig[j])
                    ==> spec_chromium_edges_ok(deps_orig[j]),
        decreases drest@.len(),
    {
        let d = drest.remove(0);
        let f = frest.remove(0);
        proof {
            assert(deps_orig.skip(i)[0] == deps_orig[i]);
            assert(files_orig.skip(i)[0] == files_orig[i]);
            assert forall|j: int|
                0 <= j < drest@.len() implies drest@[j] == #[trigger] deps_orig.skip(i + 1)[j] by {
                assert(drest@[j] == deps_orig.skip(i)[j + 1]);
                assert(deps_orig.skip(i)[j + 1] == deps_orig[i + 1 + j]);
            }
            assert(drest@ =~= deps_orig.skip(i + 1));
            assert forall|j: int|
                0 <= j < frest@.len() implies frest@[j] == #[trigger] files_orig.skip(i + 1)[j] by {
                assert(frest@[j] == files_orig.skip(i)[j + 1]);
                assert(files_orig.skip(i)[j + 1] == files_orig[i + 1 + j]);
            }
            assert(frest@ =~= files_orig.skip(i + 1));
        }
        let ghost idv = spec_chromium_id(deps_orig[i]);
        let id_probe = PackageId {
            name: normalize_target_name(d.package_name.as_str()),
            epoch: Some(d.epoch.clone()),
        };
        proof {
            assert(id_probe@ =~= idv);
        }
        let metadata: PerCrateMetadata = match find_metadata(metadatas, &id_probe) {
            Some(m) => {
                let c = clone_metadata(m);
                proof {
                    assert(spec_meta_lookup(metadatas@, idv) == Some(*m));
                    assert(str_views(c.build_script_outputs@) == spec_meta_bso(metadatas@, idv));
                    assert(c.visibility == spec_meta_vis(metadatas@, idv));
                }
                c
            },
            None => {
                let c = PerCrateMetadata::default();
                proof {
                    assert(str_views(c.build_script_outputs@) =~= Seq::<Seq<char>>::empty());
                    assert(str_views(c.build_script_outputs@) == spec_meta_bso(metadatas@, idv));
                    assert(c.visibility == spec_meta_vis(metadatas@, idv));
                }
                c
            },
        };
        proof {
            assert(str_views(metadata.build_script_outputs@) == spec_meta_bso(metadatas@, idv));
            assert(metadata.visibility == spec_meta_vis(metadatas@, idv));
            assert(deps_orig.take(i + 1).drop_last() =~= deps_orig.take(i));
            assert(deps_orig.take(i + 1).last() == deps_orig[i]);
        }
        let ghost prev_out = out@;
        let ghost dsnap = d;
        match make_build_file_for_chromium_dep(d, &f, metadata) {
            Ok(Some(entry)) => {
                proof {
                    assert(dsnap == deps_orig[i]);
                    assert(spec_pkg_emits(deps_orig[i]));
                }
                out.push(entry);
                proof {
                    assert(out@.len() == prev_out.len() + 1);
                    assert(emit_count(deps_orig.take(i + 1)) == emit_count(deps_orig.take(i))
                        + 1);
                    assert(out@[prev_out.len() as int] == entry);
                    assert(forall|k: int| 0 <= k < prev_out.len() ==> #[trigger] out@[k]
                        == prev_out[k]);
                }
            },
            Ok(None) => {
                proof {
                    assert(!spec_pkg_emits(deps_orig[i]));
                    assert(emit_count(deps_orig.take(i + 1)) == emit_count(deps_orig.take(i)));
                }
            },
            Err(e) => {
                proof {
                    assert(dsnap == deps_orig[i]);
                    assert(spec_pkg_emits(deps_orig[i]) && spec_chromium_errs(deps_orig[i], e));
                    assert(0 <= i < deps_orig.len() && spec_pkg_emits(deps_orig[i])
                        && spec_chromium_errs(deps_orig[i], e) && (forall|j: int|
                        0 <= j < i && spec_pkg_emits(#[trigger] deps_orig[j])
                            ==> spec_chromium_edges_ok(deps_orig[j])));
                }
                return Err(e);
            },
        }
        proof {
            i = i + 1;
        }
    }
    proof {
        assert(deps_orig.take(deps_orig.len() as int) =~= deps_orig);
    }
    Ok(out)
}

} // verus!
