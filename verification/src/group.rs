//! Grouping a package's dependency edges by platform condition.
//!
//! Edges are keyed by their translated condition; within each group the
//! package identities are sorted and deduplicated, the groups themselves are
//! sorted by condition, and the unconditional group always comes first, even
//! empty. The result is one canonical grouping however the input edges were
//! ordered.

use vstd::prelude::*;
use crate::condition::{
    Condition, CondError, Platform, platform_to_condition, spec_platform_to_condition,
};
use crate::order::{
    lex_le, str_le, str_eq, lemma_lex_le_reflexive, lemma_lex_le_total, lemma_lex_le_transitive,
    lemma_lex_le_antisymmetric, sort_by_le, dedup_le, sorted_le, sorted_distinct, TotalOrdered,
};
use crate::order::lemma_sorted_distinct_index;
use crate::normalized_name;
use crate::normalize_target_name;

verus! {

/// One resolved dependency edge of a package: the target package, the name
/// the source refers to it by, its epoch when epochs matter, and the
/// platforms the edge applies to (`None` for all platforms).
#[derive(Debug)]
pub struct DepOfDep {
    pub package_name: String,
    pub use_name: String,
    pub epoch: Option<String>,
    pub platform: Option<Platform>,
}

/// Identifies a package version: the normalized package name, and an epoch
/// where several major versions of one package coexist.
#[derive(Debug, Clone, PartialEq, Eq)]
pub struct PackageId {
    pub name: String,
    pub epoch: Option<String>,
}

/// The mathematical value of a [`PackageId`].
#[verifier::ext_equal]
pub struct PkgIdView {
    pub name: Seq<char>,
    pub epoch: Option<Seq<char>>,
}

impl View for PackageId {
    type V = PkgIdView;

    open spec fn view(&self) -> PkgIdView {
        PkgIdView {
            name: self.name@,
            epoch: match self.epoch {
                None => None,
                Some(e) => Some(e@),
            },
        }
    }
}

/// Order on optional strings: absent sorts before present.
pub open spec fn opt_lex_le(a: Option<Seq<char>>, b: Option<Seq<char>>) -> bool {
    match a {
        None => true,
        Some(x) => match b {
            None => false,
            Some(y) => lex_le(x, y),
        },
    }
}

pub proof fn lemma_opt_lex_le_total(a: Option<Seq<char>>, b: Option<Seq<char>>)
    ensures
        opt_lex_le(a, b) || opt_lex_le(b, a),
{
    if a is Some && b is Some {
        lemma_lex_le_total(a->0, b->0);
    }
}

pub proof fn lemma_opt_lex_le_transitive(
    a: Option<Seq<char>>,
    b: Option<Seq<char>>,
    c: Option<Seq<char>>,
)
    requires
        opt_lex_le(a, b),
        opt_lex_le(b, c),
    ensures
        opt_lex_le(a, c),
{
    if a is Some && b is Some && c is Some {
        lemma_lex_le_transitive(a->0, b->0, c->0);
    }
}

pub proof fn lemma_opt_lex_le_antisymmetric(a: Option<Seq<char>>, b: Option<Seq<char>>)
    requires
        opt_lex_le(a, b),
        opt_lex_le(b, a),
    ensures
        a == b,
{
    if a is Some && b is Some {
        lemma_lex_le_antisymmetric(a->0, b->0);
    }
}

/// Order on package identities: by name, then by epoch.
pub open spec fn pkg_le(a: PkgIdView, b: PkgIdView) -> bool {
    if a.name == b.name {
        opt_lex_le(a.epoch, b.epoch)
    } else {
        lex_le(a.name, b.name)
    }
}

pub proof fn lemma_pkg_le_total(a: PkgIdView, b: PkgIdView)
    ensures
        pkg_le(a, b) || pkg_le(b, a),
{
    if a.name == b.name {
        lemma_opt_lex_le_total(a.epoch, b.epoch);
    } else {
        lemma_lex_le_total(a.name, b.name);
    }
}

pub proof fn lemma_pkg_le_transitive(a: PkgIdView, b: PkgIdView, c: PkgIdView)
    requires
        pkg_le(a, b),
        pkg_le(b, c),
    ensures
        pkg_le(a, c),
{
    if a.name == b.name && b.name == c.name {
        lemma_opt_lex_le_transitive(a.epoch, b.epoch, c.epoch);
    } else if a.name == b.name {
        assert(pkg_le(a, c));
    } else if b.name == c.name {
        assert(pkg_le(a, c));
    } else {
        lemma_lex_le_transitive(a.name, b.name, c.name);
        if a.name == c.name {
            lemma_lex_le_antisymmetric(a.name, b.name);
            assert(false);
        }
    }
}

pub proof fn lemma_pkg_le_antisymmetric(a: PkgIdView, b: PkgIdView)
    requires
        pkg_le(a, b),
        pkg_le(b, a),
    ensures
        a =~= b,
{
    if a.name == b.name {
        lemma_opt_lex_le_antisymmetric(a.epoch, b.epoch);
    } else {
        lemma_lex_le_antisymmetric(a.name, b.name);
    }
}

impl TotalOrdered for PackageId {
    open spec fn le_spec(&self, other: &Self) -> bool {
        pkg_le(self@, other@)
    }

    proof fn lemma_le_total(a: &Self, b: &Self) {
        lemma_pkg_le_total(a@, b@);
    }

    proof fn lemma_le_transitive(a: &Self, b: &Self, c: &Self) {
        lemma_pkg_le_transitive(a@, b@, c@);
    }

    fn le(&self, other: &Self) -> (r: bool) {
        if str_eq(self.name.as_str(), other.name.as_str()) {
            match (&self.epoch, &other.epoch) {
                (None, _) => true,
                (Some(_), None) => false,
                (Some(x), Some(y)) => str_le(x.as_str(), y.as_str()),
            }
        } else {
            str_le(self.name.as_str(), other.name.as_str())
        }
    }
}

/// The view of an optional condition.
pub open spec fn opt_cond_view(c: Option<Condition>) -> Option<Seq<char>> {
    match c {
        None => None,
        Some(x) => Some(x@),
    }
}

/// Decide view equality of optional conditions.
fn opt_cond_eq(a: &Option<Condition>, b: &Option<Condition>) -> (r: bool)
    ensures
        r == (opt_cond_view(*a) == opt_cond_view(*b)),
{
    match (a, b) {
        (None, None) => true,
        (Some(x), Some(y)) => str_eq(x.0.as_str(), y.0.as_str()),
        _ => false,
    }
}

/// Dependencies sharing one condition. The packages are sorted and hold no
/// duplicate identities.
#[derive(Debug)]
pub struct DepGroup {
    /// The `if` condition gating the group, `None` for unconditional deps.
    pub cond: Option<Condition>,
    /// The packages depended on under the condition.
    pub packages: Vec<PackageId>,
}

/// The mathematical value of a [`DepGroup`].
#[verifier::ext_equal]
pub struct GroupView {
    pub cond: Option<Seq<char>>,
    pub packages: Seq<PkgIdView>,
}

impl View for DepGroup {
    type V = GroupView;

    open spec fn view(&self) -> GroupView {
        GroupView {
            cond: opt_cond_view(self.cond),
            packages: self.packages@.map_values(|p: PackageId| p@),
        }
    }
}

/// One keyed edge: the edge's condition and its target identity.
struct KeyedPkg {
    cond: Option<Condition>,
    pkg: PackageId,
}

/// The mathematical value of a [`KeyedPkg`].
#[verifier::ext_equal]
pub struct PairView {
    pub cond: Option<Seq<char>>,
    pub pkg: PkgIdView,
}

impl View for KeyedPkg {
    type V = PairView;

    closed spec fn view(&self) -> PairView {
        PairView { cond: opt_cond_view(self.cond), pkg: self.pkg@ }
    }
}

/// Order on keyed edges: by condition, then by package identity.
pub open spec fn pair_le(a: PairView, b: PairView) -> bool {
    if a.cond == b.cond {
        pkg_le(a.pkg, b.pkg)
    } else {
        opt_lex_le(a.cond, b.cond)
    }
}

proof fn lemma_pair_le_transitive(a: PairView, b: PairView, c: PairView)
    requires
        pair_le(a, b),
        pair_le(b, c),
    ensures
        pair_le(a, c),
{
    if a.cond == b.cond && b.cond == c.cond {
        lemma_pkg_le_transitive(a.pkg, b.pkg, c.pkg);
    } else if a.cond == b.cond {
        assert(pair_le(a, c));
    } else if b.cond == c.cond {
        assert(pair_le(a, c));
    } else {
        lemma_opt_lex_le_transitive(a.cond, b.cond, c.cond);
        if a.cond == c.cond {
            lemma_opt_lex_le_antisymmetric(a.cond, b.cond);
            assert(false);
        }
    }
}

proof fn lemma_pair_le_antisymmetric(a: PairView, b: PairView)
    requires
        pair_le(a, b),
        pair_le(b, a),
    ensures
        a =~= b,
{
    if a.cond == b.cond {
        lemma_pkg_le_antisymmetric(a.pkg, b.pkg);
    } else {
        lemma_opt_lex_le_antisymmetric(a.cond, b.cond);
    }
}

impl TotalOrdered for KeyedPkg {
    open spec fn le_spec(&self, other: &Self) -> bool {
        pair_le(self@, other@)
    }

    proof fn lemma_le_total(a: &Self, b: &Self) {
        if a@.cond == b@.cond {
            lemma_pkg_le_total(a@.pkg, b@.pkg);
        } else {
            lemma_opt_lex_le_total(a@.cond, b@.cond);
        }
    }

    proof fn lemma_le_transitive(a: &Self, b: &Self, c: &Self) {
        lemma_pair_le_transitive(a@, b@, c@);
    }

    fn le(&self, other: &Self) -> (r: bool) {
        if opt_cond_eq(&self.cond, &other.cond) {
            self.pkg.le(&other.pkg)
        } else {
            match (&self.cond, &other.cond) {
                (None, _) => true,
                (Some(_), None) => false,
                (Some(x), Some(y)) => str_le(x.0.as_str(), y.0.as_str()),
            }
        }
    }
}

/// The condition key of one edge: `None` when the edge is unconditional.
pub open spec fn spec_edge_cond(d: DepOfDep) -> Result<Option<Seq<char>>, CondError> {
    match d.platform {
        None => Ok(None),
        Some(p) => match spec_platform_to_condition(p) {
            Ok(c) => Ok(Some(c)),
            Err(e) => Err(e),
        },
    }
}

/// The identity an edge resolves to.
pub open spec fn spec_edge_pkg(d: DepOfDep, use_epochs: bool) -> PkgIdView {
    PkgIdView {
        name: normalized_name(d.package_name@),
        epoch: if use_epochs {
            match d.epoch {
                None => None,
                Some(e) => Some(e@),
            }
        } else {
            None
        },
    }
}

/// The views of a group list.
pub open spec fn group_views(gs: Seq<DepGroup>) -> Seq<GroupView> {
    gs.map_values(|g: DepGroup| g@)
}

/// Some group carries this condition and package.
pub open spec fn group_has(gv: Seq<GroupView>, c: Option<Seq<char>>, p: PkgIdView) -> bool {
    exists|k: int, i: int|
        0 <= k < gv.len() && 0 <= i < gv[k].packages.len() && gv[k].cond == c
            && gv[k].packages[i] == p
}

/// The structural shape every grouping has: at least one group, the
/// unconditional group first, group conditions strictly increasing, and each
/// group's packages sorted and duplicate-free. Every group but the first
/// holds at least one package.
pub open spec fn well_formed_groups(gv: Seq<GroupView>) -> bool {
    &&& gv.len() >= 1
    &&& gv[0].cond is None
    &&& forall|k1: int, k2: int| #![trigger gv[k1], gv[k2]]
        0 <= k1 < k2 < gv.len() ==> opt_lex_le(gv[k1].cond, gv[k2].cond) && gv[k1].cond
            != gv[k2].cond
    &&& forall|k: int, i: int, j: int| #![trigger gv[k].packages[i], gv[k].packages[j]]
        0 <= k < gv.len() && 0 <= i < j < gv[k].packages.len() ==> pkg_le(
            gv[k].packages[i],
            gv[k].packages[j],
        ) && gv[k].packages[i] != gv[k].packages[j]
    &&& forall|k: int| 1 <= k < gv.len() ==> #[trigger] gv[k].packages.len() >= 1
}

/// The views of a keyed-edge list.
pub open spec fn pair_views(s: Seq<KeyedPkg>) -> Seq<PairView> {
    s.map_values(|kp: KeyedPkg| kp@)
}

/// Key every edge by its translated condition, or return the first edge's
/// translation error.
fn keyed_pairs(deps: &Vec<DepOfDep>, use_epochs: bool) -> (r: Result<Vec<KeyedPkg>, CondError>)
    ensures
        match r {
            Ok(pairs) => {
                &&& pairs@.len() == deps@.len()
                &&& forall|m: int| 0 <= m < deps@.len() ==> spec_edge_cond(#[trigger] deps@[m]) is Ok
                &&& forall|m: int|
                    0 <= m < deps@.len() ==> (#[trigger] pairs@[m])@ == (PairView {
                        cond: spec_edge_cond(deps@[m])->Ok_0,
                        pkg: spec_edge_pkg(deps@[m], use_epochs),
                    })
            },
            Err(e) => exists|m: int|
                0 <= m < deps@.len() && spec_edge_cond(#[trigger] deps@[m]) == Err::<
                    Option<Seq<char>>,
                    CondError,
                >(e) && (forall|m2: int|
                    0 <= m2 < m ==> spec_edge_cond(#[trigger] deps@[m2]) is Ok),
        },
{
    let mut pairs: Vec<KeyedPkg> = Vec::new();
    let mut m: usize = 0;
    while m < deps.len()
        invariant
            0 <= m <= deps@.len(),
            pairs@.len() == m,
            forall|m2: int| 0 <= m2 < m ==> spec_edge_cond(#[trigger] deps@[m2]) is Ok,
            forall|m2: int|
                0 <= m2 < m ==> (#[trigger] pairs@[m2])@ == (PairView {
                    cond: spec_edge_cond(deps@[m2])->Ok_0,
                    pkg: spec_edge_pkg(deps@[m2], use_epochs),
                }),
        decreases deps@.len() - m,
    {
        let cond: Option<Condition> = match &deps[m].platform {
            None => None,
            Some(p) => match platform_to_condition(p) {
                Ok(c) => Some(c),
                Err(e) => {
                    return Err(e);
                },
            },
        };
        let epoch: Option<String> = if use_epochs {
            match &deps[m].epoch {
                None => None,
                Some(e) => Some(e.clone()),
            }
        } else {
            None
        };
        let pkg = PackageId { name: normalize_target_name(deps[m].package_name.as_str()), epoch };
        pairs.push(KeyedPkg { cond, pkg });
        m = m + 1;
    }
    Ok(pairs)
}

/// Split a strictly increasing keyed-edge list into groups of equal
/// condition.
#[verifier::rlimit(100)]
fn split_groups(deduped: Vec<KeyedPkg>) -> (groups: Vec<DepGroup>)
    requires
        forall|i: int, j: int|
            #![trigger pair_views(deduped@)[i], pair_views(deduped@)[j]]
            0 <= i < j < pair_views(deduped@).len() ==> pair_le(
                pair_views(deduped@)[i],
                pair_views(deduped@)[j],
            ) && pair_views(deduped@)[i] != pair_views(deduped@)[j],
    ensures
        ({
            let gv = group_views(groups@);
            let dv = pair_views(deduped@);
            &&& forall|k1: int, k2: int| #![trigger gv[k1], gv[k2]]
                0 <= k1 < k2 < gv.len() ==> opt_lex_le(gv[k1].cond, gv[k2].cond) && gv[k1].cond
                    != gv[k2].cond
            &&& forall|k: int, i: int, j: int|
                #![trigger gv[k].packages[i], gv[k].packages[j]]
                0 <= k < gv.len() && 0 <= i < j < gv[k].packages.len() ==> pkg_le(
                    gv[k].packages[i],
                    gv[k].packages[j],
                ) && gv[k].packages[i] != gv[k].packages[j]
            &&& forall|k: int| 0 <= k < gv.len() ==> (#[trigger] gv[k]).packages.len() >= 1
            &&& forall|c: Option<Seq<char>>, p: PkgIdView|
                #[trigger] group_has(gv, c, p) ==> exists|u: int|
                    0 <= u < dv.len() && dv[u] == (PairView { cond: c, pkg: p })
            &&& forall|u: int|
                0 <= u < dv.len() ==> group_has(gv, (#[trigger] dv[u]).cond, dv[u].pkg)
        }),
{
    let ghost dv = pair_views(deduped@);
    let mut rest = deduped;
    let mut groups: Vec<DepGroup> = Vec::new();
    let ghost mut t: int = 0;
    while rest.len() > 0
        invariant
            0 <= t,
            t + rest@.len() == dv.len(),
            rest@.map_values(|kp: KeyedPkg| kp@) == dv.skip(t),
            forall|i: int, j: int| #![trigger dv[i], dv[j]]
                0 <= i < j < dv.len() ==> pair_le(dv[i], dv[j]) && dv[i] != dv[j],
            // every group entry is a processed pair
            forall|c: Option<Seq<char>>, p: PkgIdView|
                #[trigger] group_has(group_views(groups@), c, p)
                    ==> exists|u: int| 0 <= u < t && dv[u] == (PairView { cond: c, pkg: p }),
            // every processed pair is in some group
            forall|u: int|
                0 <= u < t ==> group_has(
                    group_views(groups@),
                    (#[trigger] dv[u]).cond,
                    dv[u].pkg,
                ),
            // group conditions strictly increase
            forall|k1: int, k2: int|
                #![trigger group_views(groups@)[k1], group_views(groups@)[k2]]
                0 <= k1 < k2 < groups@.len() ==> opt_lex_le(
                    group_views(groups@)[k1].cond,
                    group_views(groups@)[k2].cond,
                ) && group_views(groups@)[k1].cond != group_views(groups@)[k2].cond,
            // packages in each group strictly increase
            forall|k: int, i: int, j: int|
                #![trigger group_views(groups@)[k].packages[i], group_views(groups@)[k].packages[j]]
                0 <= k < groups@.len() && 0 <= i < j < group_views(groups@)[k].packages.len() ==> pkg_le(
                    group_views(groups@)[k].packages[i],
                    group_views(groups@)[k].packages[j],
                ) && group_views(groups@)[k].packages[i] != group_views(groups@)[k].packages[j],
            // every group has at least one package
            forall|k: int|
                0 <= k < groups@.len() ==> (#[trigger] group_views(groups@)[k]).packages.len() >= 1,
            // the last group continues the last processed pair
            groups@.len() == 0 ==> t == 0,
            t == 0 ==> groups@.len() == 0,
            t > 0 ==> groups@.len() > 0,
            t > 0 ==> group_views(groups@).last().cond == dv[t - 1].cond,
            t > 0 ==> group_views(groups@).last().packages.last() == dv[t
                - 1].pkg,
        decreases rest@.len(),
    {
        let ghost gv_prev = group_views(groups@);
        let kp = rest.remove(0);
        proof {
            assert(dv.skip(t)[0] == dv[t]);
            assert(kp@ == dv[t]);
            assert forall|j: int|
                0 <= j < rest@.len() implies rest@.map_values(|kp2: KeyedPkg| kp2@)[j]
                == #[trigger] dv.skip(t + 1)[j] by {
                assert(rest@.map_values(|kp2: KeyedPkg| kp2@)[j] == dv.skip(t)[j + 1]);
                assert(dv.skip(t)[j + 1] == dv[t + 1 + j]);
                assert(dv.skip(t + 1)[j] == dv[t + 1 + j]);
            }
            assert(rest@.map_values(|kp2: KeyedPkg| kp2@) =~= dv.skip(t + 1));
        }
        let appended: bool = if groups.len() > 0 {
            let last_idx = groups.len() - 1;
            opt_cond_eq(&groups[last_idx].cond, &kp.cond)
        } else {
            false
        };
        if appended {
            let mut g = groups.pop().unwrap();
            let KeyedPkg { cond: _, pkg } = kp;
            g.packages.push(pkg);
            groups.push(g);
        } else {
            let KeyedPkg { cond, pkg } = kp;
            let mut pkgs: Vec<PackageId> = Vec::new();
            pkgs.push(pkg);
            groups.push(DepGroup { cond, packages: pkgs });
        }
        proof {
            t = t + 1;
            let gv = group_views(groups@);
            let pv = dv[t - 1];
            if appended {
                assert(gv.len() == gv_prev.len());
                assert(forall|k: int|
                    0 <= k < gv.len() - 1 ==> #[trigger] gv[k] == gv_prev[k]);
                assert(gv.last().cond == gv_prev.last().cond);
                assert(gv.last().packages =~= gv_prev.last().packages.push(pv.pkg));
                assert(gv.last().cond == pv.cond);
                // the appended package extends the strictly increasing run
                assert(t >= 2);
                assert(pair_le(dv[t - 2], dv[t - 1]) && dv[t - 2] != dv[t - 1]);
                assert(dv[t - 2].cond == pv.cond);
                assert(pkg_le(dv[t - 2].pkg, pv.pkg));
                assert(dv[t - 2].pkg != pv.pkg) by {
                    if dv[t - 2].pkg == pv.pkg {
                        assert(dv[t - 2] =~= dv[t - 1]);
                    }
                }
                assert forall|i: int, j: int|
                    0 <= i < j < gv.last().packages.len() implies pkg_le(
                    #[trigger] gv.last().packages[i],
                    #[trigger] gv.last().packages[j],
                ) && gv.last().packages[i] != gv.last().packages[j] by {
                    let lastp = gv_prev.last().packages;
                    if j < gv.last().packages.len() - 1 {
                        assert(gv.last().packages[i] == lastp[i]);
                        assert(gv.last().packages[j] == lastp[j]);
                        assert(gv_prev[gv_prev.len() - 1] == gv_prev.last());
                    } else {
                        assert(gv.last().packages[j] == pv.pkg);
                        assert(gv.last().packages[i] == lastp[i]);
                        assert(gv_prev[gv_prev.len() - 1] == gv_prev.last());
                        if i < lastp.len() - 1 {
                            assert(pkg_le(lastp[i], lastp[lastp.len() - 1]));
                            lemma_pkg_le_transitive(lastp[i], lastp[lastp.len() - 1], pv.pkg);
                            if lastp[i] == pv.pkg {
                                // then the old run would not be strictly increasing
                                assert(pkg_le(pv.pkg, lastp[lastp.len() - 1]));
                                lemma_pkg_le_antisymmetric(
                                    lastp[lastp.len() - 1],
                                    pv.pkg,
                                );
                                assert(false);
                            }
                        } else {
                            assert(lastp[i] == dv[t - 2].pkg);
                        }
                    }
                }
                assert forall|k1: int, k2: int|
                    #![trigger gv[k1], gv[k2]]
                    0 <= k1 < k2 < gv.len() implies opt_lex_le(gv[k1].cond, gv[k2].cond)
                    && gv[k1].cond != gv[k2].cond by {
                    if k2 < gv.len() - 1 {
                        assert(gv[k1] == gv_prev[k1] && gv[k2] == gv_prev[k2]);
                    } else {
                        assert(gv[k1] == gv_prev[k1]);
                        assert(gv_prev[gv_prev.len() - 1] == gv_prev.last());
                        assert(gv[k2].cond == gv_prev[k2].cond);
                    }
                }
                assert forall|c: Option<Seq<char>>, p: PkgIdView|
                    #[trigger] group_has(gv, c, p) implies exists|u: int|
                    0 <= u < t && dv[u] == (PairView { cond: c, pkg: p }) by {
                    let (k, i): (int, int) = choose|k: int, i: int|
                        0 <= k < gv.len() && 0 <= i < gv[k].packages.len() && gv[k].cond == c
                            && gv[k].packages[i] == p;
                    if k < gv.len() - 1 || i < gv.last().packages.len() - 1 {
                        assert(group_has(gv_prev, c, p)) by {
                            if k < gv.len() - 1 {
                                assert(gv_prev[k].cond == c && gv_prev[k].packages[i] == p);
                            } else {
                                assert(gv_prev[k].cond == c && gv_prev[k].packages[i] == p);
                            }
                        }
                        let u = choose|u: int|
                            0 <= u < t - 1 && dv[u] == (PairView { cond: c, pkg: p });
                        assert(0 <= u < t && dv[u] == (PairView { cond: c, pkg: p }));
                    } else {
                        assert(c == pv.cond && p == pv.pkg);
                        assert(dv[t - 1] =~= (PairView { cond: c, pkg: p }));
                    }
                }
                assert forall|u: int| 0 <= u < t implies group_has(
                    gv,
                    (#[trigger] dv[u]).cond,
                    dv[u].pkg,
                ) by {
                    if u < t - 1 {
                        assert(group_has(gv_prev, dv[u].cond, dv[u].pkg));
                        let (k, i): (int, int) = choose|k: int, i: int|
                            0 <= k < gv_prev.len() && 0 <= i < gv_prev[k].packages.len()
                                && gv_prev[k].cond == dv[u].cond && gv_prev[k].packages[i]
                                == dv[u].pkg;
                        if k < gv.len() - 1 {
                            assert(gv[k].cond == dv[u].cond && gv[k].packages[i] == dv[u].pkg);
                        } else {
                            assert(gv[k].cond == dv[u].cond && gv[k].packages[i] == dv[u].pkg);
                        }
                    } else {
                        assert(gv.last().cond == dv[u].cond);
                        assert(gv.last().packages.last() == dv[u].pkg);
                        assert(gv[gv.len() - 1].packages[gv.last().packages.len() - 1]
                            == dv[u].pkg);
                    }
                }
            } else {
                assert(gv.len() == gv_prev.len() + 1);
                assert(forall|k: int|
                    0 <= k < gv_prev.len() ==> #[trigger] gv[k] == gv_prev[k]);
                assert(gv.last().cond == pv.cond);
                assert(gv.last().packages =~= seq![pv.pkg]);
                if t >= 2 {
                    // the new condition strictly follows the previous one
                    assert(pair_le(dv[t - 2], dv[t - 1]) && dv[t - 2] != dv[t - 1]);
                    assert(gv_prev.last().cond == dv[t - 2].cond);
                    assert(dv[t - 2].cond != pv.cond);
                    assert(opt_lex_le(dv[t - 2].cond, pv.cond));
                    assert forall|k1: int, k2: int|
                        #![trigger gv[k1], gv[k2]]
                        0 <= k1 < k2 < gv.len() implies opt_lex_le(gv[k1].cond, gv[k2].cond)
                        && gv[k1].cond != gv[k2].cond by {
                        if k2 < gv.len() - 1 {
                            assert(gv[k1] == gv_prev[k1] && gv[k2] == gv_prev[k2]);
                        } else {
                            assert(gv[k2].cond == pv.cond);
                            if k1 < gv.len() - 2 {
                                assert(gv[k1] == gv_prev[k1]);
                                assert(gv_prev[gv_prev.len() - 1] == gv_prev.last());
                                assert(opt_lex_le(gv_prev[k1].cond, gv_prev.last().cond));
                                lemma_opt_lex_le_transitive(
                                    gv_prev[k1].cond,
                                    gv_prev.last().cond,
                                    pv.cond,
                                );
                                if gv[k1].cond == pv.cond {
                                    assert(opt_lex_le(pv.cond, gv_prev.last().cond));
                                    lemma_opt_lex_le_antisymmetric(
                                        gv_prev.last().cond,
                                        pv.cond,
                                    );
                                    assert(false);
                                }
                            } else {
                                assert(gv[k1] == gv_prev[gv_prev.len() - 1]);
                            }
                        }
                    }
                }
                assert forall|c: Option<Seq<char>>, p: PkgIdView|
                    #[trigger] group_has(gv, c, p) implies exists|u: int|
                    0 <= u < t && dv[u] == (PairView { cond: c, pkg: p }) by {
                    let (k, i): (int, int) = choose|k: int, i: int|
                        0 <= k < gv.len() && 0 <= i < gv[k].packages.len() && gv[k].cond == c
                            && gv[k].packages[i] == p;
                    if k < gv.len() - 1 {
                        assert(gv_prev[k].cond == c && gv_prev[k].packages[i] == p);
                        assert(group_has(gv_prev, c, p));
                        let u = choose|u: int|
                            0 <= u < t - 1 && dv[u] == (PairView { cond: c, pkg: p });
                        assert(0 <= u < t && dv[u] == (PairView { cond: c, pkg: p }));
                    } else {
                        assert(c == pv.cond && p == pv.pkg);
                        assert(dv[t - 1] =~= (PairView { cond: c, pkg: p }));
                    }
                }
                assert forall|u: int| 0 <= u < t implies group_has(
                    gv,
                    (#[trigger] dv[u]).cond,
                    dv[u].pkg,
                ) by {
                    if u < t - 1 {
                        assert(group_has(gv_prev, dv[u].cond, dv[u].pkg));
                        let (k, i): (int, int) = choose|k: int, i: int|
                            0 <= k < gv_prev.len() && 0 <= i < gv_prev[k].packages.len()
                                && gv_prev[k].cond == dv[u].cond && gv_prev[k].packages[i]
                                == dv[u].pkg;
                        assert(gv[k].cond == dv[u].cond && gv[k].packages[i] == dv[u].pkg);
                    } else {
                        assert(gv[gv.len() - 1].packages[0] == dv[u].pkg);
                        assert(gv[gv.len() - 1].cond == dv[u].cond);
                    }
                }
            }
        }
    }

    groups
}

/// The whole contract of a successful grouping: well formed, and holding a
/// condition/package pair exactly when some edge produces it.
pub open spec fn valid_grouping(edges: Seq<DepOfDep>, use_epochs: bool, gv: Seq<GroupView>) -> bool {
    &&& well_formed_groups(gv)
    &&& forall|m: int| 0 <= m < edges.len() ==> spec_edge_cond(#[trigger] edges[m]) is Ok
    &&& forall|m: int|
        0 <= m < edges.len() ==> group_has(
            gv,
            spec_edge_cond(#[trigger] edges[m])->Ok_0,
            spec_edge_pkg(edges[m], use_epochs),
        )
    &&& forall|c: Option<Seq<char>>, p: PkgIdView|
        #[trigger] group_has(gv, c, p) ==> exists|m: int|
            0 <= m < edges.len() && spec_edge_cond(#[trigger] edges[m]) == Ok::<
                Option<Seq<char>>,
                CondError,
            >(c) && spec_edge_pkg(edges[m], use_epochs) == p
}

/// Group dependency edges by condition.
///
/// The unconditional group always exists and comes first, even empty; the
/// other groups follow in strictly increasing condition order; each group's
/// package list is sorted with no duplicate identities; and a
/// condition/package pair stands in some group exactly when some edge
/// produces it. An edge whose platform the condition tables do not know
/// yields the first such edge's error instead.
#[verifier::rlimit(100)]
pub fn group_deps(deps: &Vec<DepOfDep>, use_epochs: bool) -> (r: Result<Vec<DepGroup>, CondError>)
    ensures
        match r {
            Ok(groups) => valid_grouping(deps@, use_epochs, group_views(groups@)),
            Err(e) => exists|m: int|
                0 <= m < deps@.len() && spec_edge_cond(#[trigger] deps@[m]) == Err::<
                    Option<Seq<char>>,
                    CondError,
                >(e) && (forall|m2: int|
                    0 <= m2 < m ==> spec_edge_cond(#[trigger] deps@[m2]) is Ok),
        },
{
    let pairs = match keyed_pairs(deps, use_epochs) {
        Ok(pairs) => pairs,
        Err(e) => {
            return Err(e);
        },
    };

    // sort and deduplicate the keyed edges
    let sorted = sort_by_le(pairs);
    let deduped = dedup_le(sorted);
    let ghost dv = pair_views(deduped@);
    proof {
        broadcast use vstd::seq_lib::group_to_multiset_ensures;

        // the deduplicated pairs are strictly increasing at view level
        assert forall|i: int, j: int| 0 <= i < j < dv.len() implies pair_le(dv[i], dv[j]) && dv[i]
            != dv[j] by {
            assert(dv.len() == deduped@.len());
            crate::order::lemma_sorted_distinct_index::<KeyedPkg>(deduped@, i, j);
            if dv[i] == dv[j] {
                assert(pair_le(dv[j], dv[i]));
            }
        }
        // every edge keeps a pair with its view, and every pair views an edge
        assert forall|m2: int| 0 <= m2 < deps@.len() implies exists|t: int|
            0 <= t < dv.len() && dv[t] == (PairView {
                cond: spec_edge_cond(#[trigger] deps@[m2])->Ok_0,
                pkg: spec_edge_pkg(deps@[m2], use_epochs),
            }) by {
            let pv = PairView {
                cond: spec_edge_cond(deps@[m2])->Ok_0,
                pkg: spec_edge_pkg(deps@[m2], use_epochs),
            };
            assert(pairs@.contains(pairs@[m2]));
            vstd::seq_lib::to_multiset_contains::<KeyedPkg>(pairs@, pairs@[m2]);
            vstd::seq_lib::to_multiset_contains::<KeyedPkg>(sorted@, pairs@[m2]);
            assert(sorted@.contains(pairs@[m2]));
            let s = choose|s: int| 0 <= s < sorted@.len() && sorted@[s] == pairs@[m2];
            let y = choose|y: KeyedPkg|
                #[trigger] deduped@.contains(y) && y.le_spec(&sorted@[s]) && sorted@[s].le_spec(
                    &y,
                );
            lemma_pair_le_antisymmetric(y@, sorted@[s]@);
            assert(y@ == pv);
            let t = choose|t: int| 0 <= t < deduped@.len() && deduped@[t] == y;
            assert(dv[t] == pv);
        }
        assert forall|t: int| #![trigger dv[t]] 0 <= t < dv.len() implies exists|m2: int|
            0 <= m2 < deps@.len() && dv[t] == (PairView {
                cond: spec_edge_cond(#[trigger] deps@[m2])->Ok_0,
                pkg: spec_edge_pkg(deps@[m2], use_epochs),
            }) by {
            assert(deduped@.contains(deduped@[t]));
            assert(sorted@.contains(deduped@[t]));
            vstd::seq_lib::to_multiset_contains::<KeyedPkg>(pairs@, deduped@[t]);
            vstd::seq_lib::to_multiset_contains::<KeyedPkg>(sorted@, deduped@[t]);
            assert(pairs@.contains(deduped@[t]));
            let m2 = choose|m2: int| 0 <= m2 < pairs@.len() && pairs@[m2] == deduped@[t];
            assert(dv[t] == pairs@[m2]@);
        }
    }


    let mut groups = split_groups(deduped);
    let ghost t: int = dv.len() as int;

    // make sure the unconditional group exists, first
    let ghost gv_before = group_views(groups@);
    let needs_unconditional: bool = if groups.len() == 0 {
        true
    } else {
        match &groups[0].cond {
            None => false,
            Some(_) => true,
        }
    };
    if needs_unconditional {
        proof {
            // no group carries the unconditional key
            assert forall|k: int| 0 <= k < gv_before.len() implies (#[trigger] gv_before[k]).cond
                is Some by {
                if k > 0 {
                    assert(opt_lex_le(gv_before[0].cond, gv_before[k].cond) && gv_before[0].cond
                        != gv_before[k].cond);
                }
            }
        }
        groups.insert(0, DepGroup { cond: None, packages: Vec::new() });
    }
    proof {
        let gv = group_views(groups@);
        if needs_unconditional {
            assert(gv[0].cond is None);
            assert(gv[0].packages.len() == 0);
            assert(forall|k: int| 1 <= k < gv.len() ==> #[trigger] gv[k] == gv_before[k - 1]);
            assert forall|k1: int, k2: int| #![trigger gv[k1], gv[k2]] 0 <= k1 < k2 < gv.len()
                implies opt_lex_le(gv[k1].cond, gv[k2].cond) && gv[k1].cond != gv[k2].cond by {
                if k1 == 0 {
                    assert(gv[k2] == gv_before[k2 - 1]);
                    assert(gv_before[k2 - 1].cond is Some);
                } else {
                    assert(gv[k1] == gv_before[k1 - 1] && gv[k2] == gv_before[k2 - 1]);
                }
            }
            assert forall|c: Option<Seq<char>>, p: PkgIdView| #[trigger] group_has(gv, c, p)
                implies group_has(gv_before, c, p) by {
                let (k, i): (int, int) = choose|k: int, i: int|
                    0 <= k < gv.len() && 0 <= i < gv[k].packages.len() && gv[k].cond == c
                        && gv[k].packages[i] == p;
                assert(k >= 1);
                assert(gv_before[k - 1].cond == c && gv_before[k - 1].packages[i] == p);
            }
            assert forall|c: Option<Seq<char>>, p: PkgIdView| #[trigger] group_has(gv_before, c, p)
                implies group_has(gv, c, p) by {
                let (k, i): (int, int) = choose|k: int, i: int|
                    0 <= k < gv_before.len() && 0 <= i < gv_before[k].packages.len()
                        && gv_before[k].cond == c && gv_before[k].packages[i] == p;
                assert(gv[k + 1].cond == c && gv[k + 1].packages[i] == p);
            }
        }
        // tie the final grouping back to the edges
        let gvf = group_views(groups@);
        assert forall|m2: int| 0 <= m2 < deps@.len() implies group_has(
            gvf,
            spec_edge_cond(#[trigger] deps@[m2])->Ok_0,
            spec_edge_pkg(deps@[m2], use_epochs),
        ) by {
            let pv = PairView {
                cond: spec_edge_cond(deps@[m2])->Ok_0,
                pkg: spec_edge_pkg(deps@[m2], use_epochs),
            };
            let u = choose|u: int| 0 <= u < dv.len() && dv[u] == pv;
            assert(group_has(gv_before, dv[u].cond, dv[u].pkg));
            if needs_unconditional {
                assert(group_has(gvf, dv[u].cond, dv[u].pkg));
            }
            assert(dv[u].cond == pv.cond && dv[u].pkg == pv.pkg);
        }
        assert forall|c: Option<Seq<char>>, p: PkgIdView| #[trigger] group_has(gvf, c, p)
            implies exists|m2: int|
            0 <= m2 < deps@.len() && spec_edge_cond(#[trigger] deps@[m2]) == Ok::<
                Option<Seq<char>>,
                CondError,
            >(c) && spec_edge_pkg(deps@[m2], use_epochs) == p by {
            assert(group_has(gv_before, c, p));
            let u = choose|u: int| 0 <= u < t && dv[u] == (PairView { cond: c, pkg: p });
            let m2 = choose|m2: int|
                0 <= m2 < deps@.len() && dv[u] == (PairView {
                    cond: spec_edge_cond(#[trigger] deps@[m2])->Ok_0,
                    pkg: spec_edge_pkg(deps@[m2], use_epochs),
                });
            assert(spec_edge_cond(deps@[m2]) is Ok);
            assert(spec_edge_cond(deps@[m2])->Ok_0 == c);
            assert(spec_edge_pkg(deps@[m2], use_epochs) == p);
        }
    }
    Ok(groups)
}

} // verus!
