//! The package dependency resolver: discovery of the transitive
//! dependency closure over a registry oracle, the single-version and
//! acyclicity checks, and the topological fold into a resolved package.

use vstd::prelude::*;
use crate::version::{
    Version, VersionView, version_lt, version_lt_exec, version_eq_exec, version_order_eq,
    lemma_version_lt_trichotomy, lemma_version_lt_trans, range_rep,
};
use crate::registry::{
    PackageId, PackageIdView, PackageInfo, PackageInfoView, PackageSpecifier, SpecifierView,
    PackageSummary, DistributionInfo, QueryError, Source, Dependency, id_rep, info_id,
};
use crate::graph::{
    Node, NodeView, Edge, EdgeView, DependencyGraph, GraphView, edges_ok, has_edge, ids_distinct,
    names_distinct, aliases_unique, rooted, graph_wf, has_parent_edge, has_cycle, reachable,
    toposort, topo_pinned, closed_walk, in_prefix, is_walk, pos_in, lemma_closed_walk_cycle,
    lemma_topo_pinned_acyclic, lemma_all_reachable,
};
use crate::text::{
    str_eq, str_lt, lex_lt, push_str_chars, chars_to_string, lemma_lex_lt_trichotomy,
    lemma_lex_lt_trans,
};

verus! {

/// Why resolution failed.
#[derive(Debug, PartialEq, Eq)]
pub enum ResolveError {
    /// The oracle could not satisfy a specifier.
    Registry { package: PackageSpecifier, error: QueryError },
    /// The dependency graph closes a loop; the payload reads as a round
    /// trip, starting and ending at the same package.
    Cycle(Vec<PackageId>),
    /// Two distinct versions of one package name were discovered; the
    /// versions are listed in ascending order.
    DuplicateVersions { package_name: String, versions: Vec<Version> },
    /// A package declares two dependencies under one alias.
    DuplicateAliases { package: PackageId, alias: String },
    /// A filesystem mapping names a dependency alias that the declaring
    /// package does not have.
    UnknownDependencyAlias { package: PackageId, alias: String },
}

impl ResolveError {
    /// The closed dependency loop, if this error reports one.
    pub fn as_cycle(&self) -> (r: Option<&Vec<PackageId>>)
        ensures
            match self {
                ResolveError::Cycle(c) => r == Some(c),
                _ => r is None,
            },
    {
        match self {
            ResolveError::Cycle(cycle) => Some(cycle),
            _ => None,
        }
    }
}

/// The message of an oracle failure, per specifier form.
pub open spec fn spec_registry_error_message(s: SpecifierView) -> Seq<char> {
    match s {
        SpecifierView::Registry { full_name, version } => if version.len() == 0 {
            "Unable to find \""@ + full_name + "\" in the registry"@
        } else {
            "Unable to find \""@ + full_name + seq!['@'] + range_rep(version)
                + "\" in the registry"@
        },
        SpecifierView::Url(u) => "Unable to resolve \""@ + u + seq!['"'],
        SpecifierView::Path(p) => "Unable to load \""@ + p + "\" from disk"@,
    }
}

/// The human-readable message of an oracle failure.
pub fn registry_error_message(specifier: &PackageSpecifier) -> (r: String)
    ensures
        r@ == spec_registry_error_message(specifier@),
{
    let mut out: Vec<char> = Vec::new();
    match specifier {
        PackageSpecifier::Registry { full_name, version } => {
            push_str_chars(&mut out, "Unable to find \"");
            push_str_chars(&mut out, full_name.as_str());
            if version.comparators.len() > 0 {
                out.push('@');
                let rendered = crate::version::range_to_string(version);
                push_str_chars(&mut out, rendered.as_str());
            }
            push_str_chars(&mut out, "\" in the registry");
        },
        PackageSpecifier::Url(u) => {
            push_str_chars(&mut out, "Unable to resolve \"");
            push_str_chars(&mut out, u.as_str());
            out.push('"');
        },
        PackageSpecifier::Path(p) => {
            push_str_chars(&mut out, "Unable to load \"");
            push_str_chars(&mut out, p.as_str());
            push_str_chars(&mut out, "\" from disk");
        },
    }
    proof {
        assert(out@ =~= spec_registry_error_message(specifier@));
    }
    chars_to_string(&out)
}

/// The rendering of a dependency loop: the ids joined with arrows.
pub open spec fn spec_cycle_rep(ids: Seq<PackageIdView>, i: int) -> Seq<char>
    decreases i,
{
    if i <= 0 {
        Seq::<char>::empty()
    } else if i == 1 {
        id_rep(ids[0])
    } else {
        spec_cycle_rep(ids, i - 1) + " → "@ + id_rep(ids[i - 1])
    }
}

/// Renders a dependency loop as `a@v → b@v → a@v`.
pub fn print_cycle(packages: &Vec<PackageId>) -> (r: String)
    ensures
        r@ == spec_cycle_rep(packages.deep_view(), packages.deep_view().len() as int),
{
    let mut out: Vec<char> = Vec::new();
    let mut i: usize = 0;
    while i < packages.len()
        invariant
            i <= packages.len(),
            out@ == spec_cycle_rep(packages.deep_view(), i as int),
        decreases packages.len() - i,
    {
        if i > 0 {
            push_str_chars(&mut out, " → ");
        }
        proof {
            assert(packages.deep_view()[i as int] == packages@[i as int]@);
        }
        push_str_chars(&mut out, packages[i].package_name.as_str());
        out.push('@');
        crate::version::push_version(&mut out, &packages[i].version);
        i = i + 1;
        proof {
            assert(out@ =~= spec_cycle_rep(packages.deep_view(), i as int));
        }
    }
    chars_to_string(&out)
}

impl PackageId {
    /// `true` when this id and `other` share the package name.
    pub fn same_name(&self, other: &PackageId) -> (r: bool)
        ensures
            r == (self@.name == other@.name),
    {
        str_eq(self.package_name.as_str(), other.package_name.as_str())
    }
}

/// Where a command comes from: its name and the providing package.
#[derive(Debug, PartialEq, Eq)]
pub struct ItemLocation {
    pub name: String,
    pub package: PackageId,
}

/// The mathematical content of an [`ItemLocation`].
pub struct ItemLocationView {
    pub name: Seq<char>,
    pub package: PackageIdView,
}

impl View for ItemLocation {
    type V = ItemLocationView;

    open spec fn view(&self) -> ItemLocationView {
        ItemLocationView { name: self.name@, package: self.package@ }
    }
}

impl DeepView for ItemLocation {
    type V = ItemLocationView;

    open spec fn deep_view(&self) -> ItemLocationView {
        self.view()
    }
}

impl Clone for ItemLocation {
    /// A copy naming the same command and package.
    fn clone(&self) -> (r: Self)
        ensures
            r@ == self@,
    {
        let r = ItemLocation { name: self.name.clone(), package: self.package.clone() };
        proof {
            assert(r@ =~= self@);
        }
        r
    }
}

/// One resolved filesystem overlay: the mapping plus the package whose
/// distribution provides it.
#[derive(Debug, PartialEq, Eq)]
pub struct ResolvedFileSystemMapping {
    pub mount_path: String,
    pub original_path: String,
    pub volume_name: String,
    pub package: PackageId,
}

/// The mathematical content of a [`ResolvedFileSystemMapping`].
pub struct ResolvedFsView {
    pub mount_path: Seq<char>,
    pub original_path: Seq<char>,
    pub volume_name: Seq<char>,
    pub package: PackageIdView,
}

impl View for ResolvedFileSystemMapping {
    type V = ResolvedFsView;

    open spec fn view(&self) -> ResolvedFsView {
        ResolvedFsView {
            mount_path: self.mount_path@,
            original_path: self.original_path@,
            volume_name: self.volume_name@,
            package: self.package@,
        }
    }
}

impl DeepView for ResolvedFileSystemMapping {
    type V = ResolvedFsView;

    open spec fn deep_view(&self) -> ResolvedFsView {
        self.view()
    }
}

/// The runtime view of a resolved dependency closure: the commands on
/// offer, the entrypoint, and the filesystem overlays in mount order.
#[derive(Debug, PartialEq, Eq)]
pub struct ResolvedPackage {
    pub root_package: PackageId,
    pub commands: Vec<ItemLocation>,
    pub entrypoint: Option<String>,
    pub filesystem: Vec<ResolvedFileSystemMapping>,
}

/// The mathematical content of a [`ResolvedPackage`].
pub struct ResolvedPackageView {
    pub root_package: PackageIdView,
    pub commands: Seq<ItemLocationView>,
    pub entrypoint: Option<Seq<char>>,
    pub filesystem: Seq<ResolvedFsView>,
}

impl View for ResolvedPackage {
    type V = ResolvedPackageView;

    open spec fn view(&self) -> ResolvedPackageView {
        ResolvedPackageView {
            root_package: self.root_package@,
            commands: self.commands.deep_view(),
            entrypoint: match &self.entrypoint {
                Some(e) => Some(e@),
                None => None,
            },
            filesystem: self.filesystem.deep_view(),
        }
    }
}

impl ResolvedPackage {
    /// The command of this name, if the package offers one.
    pub fn command(&self, name: &str) -> (r: Option<&ItemLocation>)
        ensures
            match r {
                Some(loc) => exists|i: int|
                    0 <= i < self@.commands.len() && #[trigger] self@.commands[i] == loc@
                        && loc@.name == name@,
                None => forall|i: int|
                    0 <= i < self@.commands.len() ==> (#[trigger] self@.commands[i]).name
                        != name@,
            },
    {
        let mut i: usize = 0;
        while i < self.commands.len()
            invariant
                i <= self.commands@.len(),
                forall|j: int|
                    0 <= j < i ==> (#[trigger] self@.commands[j]).name != name@,
            decreases self.commands@.len() - i,
        {
            proof {
                assert(self@.commands[i as int] == self.commands@[i as int]@);
            }
            if str_eq(self.commands[i].name.as_str(), name) {
                return Some(&self.commands[i]);
            }
            i = i + 1;
        }
        None
    }
}

/// The output of resolution: the discovered graph as a witness, and the
/// folded runtime view.
#[derive(Debug)]
pub struct Resolution {
    pub graph: DependencyGraph,
    pub package: ResolvedPackage,
}

} // verus!
// The module continues: the single-version-per-name check.

verus! {

/// All nodes sharing a package name carry the same version.
pub open spec fn single_version_per_name(nodes: Seq<NodeView>) -> bool {
    forall|i: int, j: int|
        0 <= i < nodes.len() && 0 <= j < nodes.len() && (#[trigger] nodes[i]).id.name == (
        #[trigger] nodes[j]).id.name ==> nodes[i].id.version == nodes[j].id.version
}

/// Node `i` shares its name with a node of another version.
pub open spec fn offending_at(nodes: Seq<NodeView>, i: int) -> bool {
    exists|j: int|
        0 <= j < nodes.len() && (#[trigger] nodes[j]).id.name == nodes[i].id.name && nodes[
        j].id.version != nodes[i].id.version
}

/// `name` is carried by nodes of two different versions.
pub open spec fn offending_name(nodes: Seq<NodeView>, name: Seq<char>) -> bool {
    exists|i: int|
        0 <= i < nodes.len() && (#[trigger] nodes[i]).id.name == name && offending_at(nodes, i)
}

/// Some node of this name carries this version.
pub open spec fn name_has_version(nodes: Seq<NodeView>, name: Seq<char>, v: VersionView) -> bool {
    exists|i: int|
        0 <= i < nodes.len() && (#[trigger] nodes[i]).id.name == name && nodes[i].id.version
            == v
}

/// At or below in the version order (build metadata ignored).
pub open spec fn version_le(a: VersionView, b: VersionView) -> bool {
    !version_lt(b, a)
}

/// `version_le` is transitive.
proof fn lemma_version_le_trans(a: VersionView, b: VersionView, c: VersionView)
    requires
        version_le(a, b),
        version_le(b, c),
    ensures
        version_le(a, c),
{
    if version_lt(c, a) {
        lemma_version_lt_trichotomy(a, b);
        if version_lt(a, b) {
            lemma_version_lt_trans(c, a, b);
        } else if version_order_eq(a, b) {
            assert(version_lt(c, b));
        }
    }
}

/// Whether node `i` shares its name with a node of another version.
fn offending_exec(nodes: &Vec<Node>, i: usize) -> (r: bool)
    requires
        (i as int) < nodes.deep_view().len(),
    ensures
        r == offending_at(nodes.deep_view(), i as int),
{
    let ghost nv = nodes.deep_view();
    let mut j: usize = 0;
    while j < nodes.len()
        invariant
            nv == nodes.deep_view(),
            (i as int) < nv.len(),
            j <= nv.len(),
            forall|m: int|
                0 <= m < j ==> !((#[trigger] nv[m]).id.name == nv[i as int].id.name && nv[
                m].id.version != nv[i as int].id.version),
        decreases nodes.len() - j,
    {
        proof {
            assert(nv[j as int] == nodes@[j as int]@);
            assert(nv[i as int] == nodes@[i as int]@);
        }
        if nodes[j].id.same_name(&nodes[i].id) {
            if !version_eq_exec(&nodes[j].id.version, &nodes[i].id.version) {
                return true;
            }
        }
        j = j + 1;
    }
    false
}

/// As a workaround for the absence of proper dependency merging, every
/// package name must resolve to one exact version. On failure the
/// lexicographically first offending name is reported, with its
/// versions listed in ascending order without repetition.
#[verifier::rlimit(100)]
#[verifier::spinoff_prover]
pub fn check_for_duplicate_versions(nodes: &Vec<Node>) -> (r: Result<(), ResolveError>)
    ensures
        match r {
            Ok(_) => single_version_per_name(nodes.deep_view()),
            Err(e) => {
                &&& e matches ResolveError::DuplicateVersions { package_name, versions }
                &&& match e {
                    ResolveError::DuplicateVersions { package_name, versions } => {
                        let nv = nodes.deep_view();
                        &&& offending_name(nv, package_name@)
                        &&& forall|m: Seq<char>|
                            #[trigger] offending_name(nv, m) ==> !lex_lt(m, package_name@)
                        &&& vseq_distinct(versions.deep_view())
                        &&& vseq_sorted(versions.deep_view())
                        &&& forall|a: int|
                            0 <= a < versions.deep_view().len() ==> name_has_version(
                                nv,
                                package_name@,
                                #[trigger] versions.deep_view()[a],
                            )
                        &&& forall|i: int|
                            0 <= i < nv.len() && (#[trigger] nv[i]).id.name == package_name@
                                ==> vseq_contains(versions.deep_view(), nv[i].id.version)
                    },
                    _ => false,
                }
            },
        },
{
    let ghost nv = nodes.deep_view();
    // The lexicographically first offending name, if any.
    let mut best: Option<usize> = None;
    let mut i: usize = 0;
    while i < nodes.len()
        invariant
            nv == nodes.deep_view(),
            i <= nv.len(),
            match best {
                Some(b) => {
                    &&& (b as int) < nv.len()
                    &&& offending_at(nv, b as int)
                    &&& forall|m: int|
                        0 <= m < i && #[trigger] offending_at(nv, m) ==> !lex_lt(
                            nv[m].id.name,
                            nv[b as int].id.name,
                        )
                },
                None => forall|m: int| 0 <= m < i ==> !#[trigger] offending_at(nv, m),
            },
        decreases nodes.len() - i,
    {
        proof {
            assert(nv[i as int] == nodes@[i as int]@);
        }
        if offending_exec(nodes, i) {
            match best {
                None => {
                    proof {
                        lemma_lex_lt_trichotomy(nv[i as int].id.name, nv[i as int].id.name);
                    }
                    best = Some(i);
                },
                Some(b) => {
                    proof {
                        assert(nv[b as int] == nodes@[b as int]@);
                    }
                    if str_lt(nodes[i].id.package_name.as_str(), nodes[b].id.package_name.as_str()) {
                        proof {
                            let ghost bn = nv[b as int].id.name;
                            let ghost inm = nv[i as int].id.name;
                            assert forall|m: int|
                                0 <= m < i + 1 && #[trigger] offending_at(nv, m) implies !lex_lt(
                                nv[m].id.name,
                                inm,
                            ) by {
                                if m < i as int {
                                    if lex_lt(nv[m].id.name, inm) {
                                        lemma_lex_lt_trans(nv[m].id.name, inm, bn);
                                    }
                                } else {
                                    lemma_lex_lt_trichotomy(inm, inm);
                                }
                            }
                        }
                        best = Some(i);
                    } else {
                        proof {
                            let ghost bn = nv[b as int].id.name;
                            let ghost inm = nv[i as int].id.name;
                            lemma_lex_lt_trichotomy(inm, bn);
                            assert forall|m: int|
                                0 <= m < i + 1 && #[trigger] offending_at(nv, m) implies !lex_lt(
                                nv[m].id.name,
                                bn,
                            ) by {
                                if m == i as int {
                                    if inm == bn {
                                        lemma_lex_lt_trichotomy(inm, inm);
                                    }
                                }
                            }
                        }
                    }
                },
            }
        }
        i = i + 1;
    }
    let b = match best {
        None => {
            proof {
                assert forall|i: int, j: int|
                    0 <= i < nv.len() && 0 <= j < nv.len() && (#[trigger] nv[i]).id.name == (
                    #[trigger] nv[j]).id.name implies nv[i].id.version == nv[j].id.version by {
                    if nv[i].id.version != nv[j].id.version {
                        assert(offending_at(nv, i));
                    }
                }
            }
            return Ok(());
        },
        Some(b) => b,
    };
    // Gather the distinct versions of the offending name.
    let mut versions: Vec<Version> = Vec::new();
    let mut i: usize = 0;
    while i < nodes.len()
        invariant
            nv == nodes.deep_view(),
            i <= nv.len(),
            (b as int) < nv.len(),
            forall|a: int|
                0 <= a < versions.deep_view().len() ==> name_has_version(
                    nv,
                    nv[b as int].id.name,
                    #[trigger] versions.deep_view()[a],
                ),
            forall|m: int|
                0 <= m < i && (#[trigger] nv[m]).id.name == nv[b as int].id.name
                    ==> exists|a: int|
                    0 <= a < versions.deep_view().len() && versions.deep_view()[a] == nv[
                    m].id.version,
            forall|a: int, c: int|
                0 <= a < c < versions.deep_view().len() ==> versions.deep_view()[a]
                    != versions.deep_view()[c],
        decreases nodes.len() - i,
    {
        proof {
            assert(nv[i as int] == nodes@[i as int]@);
            assert(nv[b as int] == nodes@[b as int]@);
        }
        if nodes[i].id.same_name(&nodes[b].id) {
            let mut seen = false;
            let mut a: usize = 0;
            while a < versions.len()
                invariant
                    nv == nodes.deep_view(),
                    (i as int) < nv.len(),
                    a <= versions.deep_view().len(),
                    seen ==> exists|c: int|
                        0 <= c < versions.deep_view().len() && versions.deep_view()[c] == nv[
                        i as int].id.version,
                    !seen ==> forall|c: int|
                        0 <= c < a ==> versions.deep_view()[c] != nv[i as int].id.version,
                decreases versions.len() - a,
            {
                proof {
                    assert(versions.deep_view()[a as int] == versions@[a as int]@);
                    assert(nv[i as int] == nodes@[i as int]@);
                }
                if version_eq_exec(&versions[a], &nodes[i].id.version) {
                    seen = true;
                }
                a = a + 1;
            }
            if !seen {
                let ghost prevv = versions@;
                let ghost prevd = versions.deep_view();
                let newv = nodes[i].id.version.clone();
                let ghost nvv = newv@;
                versions.push(newv);
                proof {
                    assert(versions@[versions@.len() - 1]@ == nvv);
                    assert(nvv == nv[i as int].id.version);
                    assert(versions.deep_view().len() == prevd.len() + 1);
                    assert forall|c: int|
                        0 <= c < versions.deep_view().len() implies versions.deep_view()[c]
                        == (if c < prevd.len() {
                        prevd[c]
                    } else {
                        nvv
                    }) by {
                        if c < prevd.len() {
                            assert(versions@[c] == prevv[c]);
                            assert(versions.deep_view()[c] == versions@[c].deep_view());
                            assert(prevd[c] == prevv[c].deep_view());
                        } else {
                            assert(versions.deep_view()[c] == versions@[c].deep_view());
                        }
                    }
                    let vd2 = versions.deep_view();
                    assert forall|m: int|
                        0 <= m < i + 1 && (#[trigger] nv[m]).id.name == nv[b as int].id.name
                        implies exists|a: int|
                        0 <= a < vd2.len() && vd2[a] == nv[m].id.version by {
                        if m < i as int {
                            let a = choose|a: int|
                                0 <= a < prevd.len() && prevd[a] == nv[m].id.version;
                            assert(vd2[a] == nv[m].id.version);
                        } else {
                            assert(vd2[vd2.len() - 1] == nv[m].id.version);
                        }
                    }
                    assert forall|a: int|
                        0 <= a < vd2.len() implies name_has_version(
                        nv,
                        nv[b as int].id.name,
                        #[trigger] vd2[a],
                    ) by {
                        if a < prevd.len() {
                            assert(vd2[a] == prevd[a]);
                        } else {
                            assert(vd2[a] == nv[i as int].id.version);
                            assert(nv[i as int].id.name == nv[b as int].id.name);
                        }
                    }
                    assert forall|a: int, c: int|
                        0 <= a < c < vd2.len() implies vd2[a] != vd2[c] by {
                        if c < prevd.len() {
                        } else {
                            assert(vd2[c] == nvv);
                            assert(vd2[a] == prevd[a]);
                        }
                    }
                }
            }
        }
        i = i + 1;
    }
    // Sort ascending.
    let sorted = sort_versions(&versions);
    proof {
        assert(nv[b as int] == nodes@[b as int]@);
        let sd = sorted.deep_view();
        let ud = versions.deep_view();
        let bn = nv[b as int].id.name;
        assert(offending_name(nv, bn)) by {
            assert((#[trigger] nv[b as int]).id.name == bn && offending_at(nv, b as int));
        }
        assert forall|m: Seq<char>| #[trigger] offending_name(nv, m) implies !lex_lt(
            m,
            bn,
        ) by {
            let i0 = choose|i0: int|
                0 <= i0 < nv.len() && (#[trigger] nv[i0]).id.name == m && offending_at(nv, i0);
            assert(!lex_lt(nv[i0].id.name, bn));
        }
        assert forall|a: int|
            0 <= a < sd.len() implies name_has_version(nv, bn, #[trigger] sd[a]) by {
            assert(vseq_contains(ud, sd[a]));
            let c = choose|c: int| 0 <= c < ud.len() && #[trigger] ud[c] == sd[a];
            assert(name_has_version(nv, bn, ud[c]));
        }
        assert forall|i2: int|
            0 <= i2 < nv.len() && (#[trigger] nv[i2]).id.name == bn implies vseq_contains(
            sd,
            nv[i2].id.version,
        ) by {
            let a = choose|a: int| 0 <= a < ud.len() && ud[a] == nv[i2].id.version;
            assert(vseq_contains(sd, ud[a]));
        }
        assert(vseq_distinct(ud));
    }
    let package_name = nodes[b].id.package_name.clone();
    Err(ResolveError::DuplicateVersions { package_name, versions: sorted })
}

/// The first position in ascending `r` whose element is not below `x`.
fn insert_pos(r: &Vec<Version>, x: &Version) -> (p: usize)
    ensures
        (p as int) <= r.deep_view().len(),
        forall|a: int| 0 <= a < p ==> version_lt(#[trigger] r.deep_view()[a], x@),
        (p as int) < r.deep_view().len() ==> !version_lt(r.deep_view()[p as int], x@),
{
    let mut p: usize = 0;
    while p < r.len()
        invariant
            p <= r.deep_view().len(),
            forall|a: int| 0 <= a < p ==> version_lt(#[trigger] r.deep_view()[a], x@),
        decreases r.len() - p,
    {
        proof {
            assert(r.deep_view()[p as int] == r@[p as int]@);
        }
        if !version_lt_exec(&r[p], x) {
            return p;
        }
        p = p + 1;
    }
    p
}

/// Ascending order, element by element.
pub open spec fn vseq_sorted(s: Seq<VersionView>) -> bool {
    forall|a: int, c: int|
        0 <= a <= c < s.len() ==> version_le(#[trigger] s[a], #[trigger] s[c])
}

/// Membership of a version value.
pub open spec fn vseq_contains(s: Seq<VersionView>, x: VersionView) -> bool {
    exists|c: int| 0 <= c < s.len() && #[trigger] s[c] == x
}

/// Pairwise distinctness.
pub open spec fn vseq_distinct(s: Seq<VersionView>) -> bool {
    forall|a: int, c: int| 0 <= a < c < s.len() ==> s[a] != s[c]
}

/// Inserts `x` into the ascending list `r`, keeping it ascending.
#[verifier::rlimit(100)]
#[verifier::spinoff_prover]
fn insert_sorted(r: &mut Vec<Version>, x: Version)
    requires
        vseq_sorted(old(r).deep_view()),
    ensures
        final(r).deep_view().len() == old(r).deep_view().len() + 1,
        vseq_sorted(final(r).deep_view()),
        forall|a: int|
            0 <= a < final(r).deep_view().len() ==> (#[trigger] final(r).deep_view()[a] == x@
                || vseq_contains(old(r).deep_view(), final(r).deep_view()[a])),
        forall|c: int|
            0 <= c < old(r).deep_view().len() ==> vseq_contains(
                final(r).deep_view(),
                #[trigger] old(r).deep_view()[c],
            ),
        vseq_contains(final(r).deep_view(), x@),
        (vseq_distinct(old(r).deep_view()) && !vseq_contains(old(r).deep_view(), x@))
            ==> vseq_distinct(final(r).deep_view()),
{
    let ghost prevd = old(r).deep_view();
    let ghost xv = x@;
    let p = insert_pos(r, &x);
    let ghost prevr = r@;
    let ghost pp = p as int;
    r.insert(p, x);
    proof {
        assert(r@.len() == prevr.len() + 1);
        assert forall|c: int| 0 <= c < r.deep_view().len() implies r.deep_view()[c] == (
        if c < pp {
            prevd[c]
        } else if c == pp {
            xv
        } else {
            prevd[c - 1]
        }) by {
            if c < pp {
                assert(r@[c] == prevr[c]);
                assert(r.deep_view()[c] == r@[c].deep_view());
                assert(prevd[c] == prevr[c].deep_view());
            } else if c == pp {
                assert(r@[c]@ == xv);
                assert(r.deep_view()[c] == r@[c].deep_view());
            } else {
                assert(r@[c] == prevr[c - 1]);
                assert(r.deep_view()[c] == r@[c].deep_view());
                assert(prevd[c - 1] == prevr[c - 1].deep_view());
            }
        }
        let rd = r.deep_view();
        assert forall|a: int, c: int|
            0 <= a <= c < rd.len() implies version_le(#[trigger] rd[a], #[trigger] rd[c]) by {
            lemma_version_lt_trichotomy(xv, xv);
            if a == c {
            } else if c < pp {
            } else if a < pp && c == pp {
                assert(version_lt(prevd[a], xv));
                lemma_version_lt_trichotomy(prevd[a], xv);
            } else if a < pp {
                assert(version_lt(prevd[a], xv));
                lemma_version_lt_trichotomy(prevd[a], xv);
                assert(!version_lt(prevd[pp], xv));
                lemma_version_le_trans(xv, prevd[pp], prevd[c - 1]);
                lemma_version_le_trans(prevd[a], xv, prevd[c - 1]);
            } else if a == pp {
                assert(!version_lt(prevd[pp], xv));
                lemma_version_le_trans(xv, prevd[pp], prevd[c - 1]);
            } else {
            }
        }
        assert forall|c: int|
            0 <= c < prevd.len() implies vseq_contains(rd, #[trigger] prevd[c]) by {
            if c < pp {
                assert(rd[c] == prevd[c]);
            } else {
                assert(rd[c + 1] == prevd[c]);
            }
        }
        assert(rd[pp] == xv);
        if vseq_distinct(prevd) && !vseq_contains(prevd, xv) {
            assert forall|a: int, c: int| 0 <= a < c < rd.len() implies rd[a] != rd[c] by {
                if a == pp {
                    assert(rd[c] == prevd[c - 1]);
                    if rd[a] == rd[c] {
                        assert(vseq_contains(prevd, xv));
                    }
                } else if c == pp {
                    assert(rd[a] == prevd[a]);
                    if rd[a] == rd[c] {
                        assert(vseq_contains(prevd, xv));
                    }
                }
            }
        }
    }
}

/// The versions of `v`, in ascending order (insertion sort; the order
/// ignores build metadata, so order-equal versions keep their relative
/// order).
#[verifier::rlimit(100)]
#[verifier::spinoff_prover]
fn sort_versions(v: &Vec<Version>) -> (r: Vec<Version>)
    ensures
        r.deep_view().len() == v.deep_view().len(),
        vseq_sorted(r.deep_view()),
        forall|a: int|
            0 <= a < r.deep_view().len() ==> vseq_contains(
                v.deep_view(),
                #[trigger] r.deep_view()[a],
            ),
        forall|a: int|
            0 <= a < v.deep_view().len() ==> vseq_contains(
                r.deep_view(),
                #[trigger] v.deep_view()[a],
            ),
        vseq_distinct(v.deep_view()) ==> vseq_distinct(r.deep_view()),
{
    let ghost vd = v.deep_view();
    let mut r: Vec<Version> = Vec::new();
    let mut i: usize = 0;
    while i < v.len()
        invariant
            vd == v.deep_view(),
            i <= vd.len(),
            r.deep_view().len() == i as int,
            vseq_sorted(r.deep_view()),
            forall|a: int|
                0 <= a < r.deep_view().len() ==> vseq_contains(
                    vd.subrange(0, i as int),
                    #[trigger] r.deep_view()[a],
                ),
            forall|a: int|
                0 <= a < i ==> vseq_contains(r.deep_view(), #[trigger] vd[a]),
            vseq_distinct(vd) ==> vseq_distinct(r.deep_view()),
        decreases v.len() - i,
    {
        proof {
            assert(vd[i as int] == v@[i as int]@);
        }
        let x = v[i].clone();
        let ghost xv = x@;
        let ghost prevd = r.deep_view();
        proof {
            if vseq_distinct(vd) {
                if vseq_contains(prevd, xv) {
                    let a = choose|a: int| 0 <= a < prevd.len() && #[trigger] prevd[a] == xv;
                    let c = choose|c: int|
                        0 <= c < i && #[trigger] vd.subrange(0, i as int)[c] == prevd[a];
                    assert(vd[c] == xv);
                    assert(vd[i as int] == xv);
                    assert(false);
                }
            }
        }
        insert_sorted(&mut r, x);
        i = i + 1;
        proof {
            let rd = r.deep_view();
            assert forall|a: int|
                0 <= a < rd.len() implies vseq_contains(
                vd.subrange(0, i as int),
                #[trigger] rd[a],
            ) by {
                if rd[a] == xv {
                    assert(vd.subrange(0, i as int)[i - 1] == rd[a]);
                } else {
                    assert(vseq_contains(prevd, rd[a]));
                    let c = choose|c: int| 0 <= c < prevd.len() && #[trigger] prevd[c] == rd[a];
                    let w = choose|w: int|
                        0 <= w < i - 1 && #[trigger] vd.subrange(0, i - 1)[w] == prevd[c];
                    assert(vd.subrange(0, i as int)[w] == rd[a]);
                }
            }
            assert forall|a: int|
                0 <= a < i implies vseq_contains(rd, #[trigger] vd[a]) by {
                if a < i - 1 {
                    let c = choose|c: int| 0 <= c < prevd.len() && #[trigger] prevd[c] == vd[a];
                    assert(vseq_contains(rd, prevd[c]));
                } else {
                    assert(vseq_contains(rd, xv));
                }
            }
        }
    }
    proof {
        assert(vd.subrange(0, vd.len() as int) =~= vd);
        assert forall|a: int|
            0 <= a < r.deep_view().len() implies vseq_contains(
            vd,
            #[trigger] r.deep_view()[a],
        ) by {
            let c = choose|c: int|
                0 <= c < vd.len() && #[trigger] vd.subrange(0, vd.len() as int)[c]
                    == r.deep_view()[a];
            assert(vd[c] == r.deep_view()[a]);
        }
    }
    r
}

} // verus!
// The module continues: discovery of the dependency closure.

verus! {

/// A graph view assembled from parts, rooted at node 0.
pub open spec fn gv(nodes: Seq<NodeView>, edges: Seq<EdgeView>) -> GraphView {
    GraphView { root: 0, nodes, edges }
}

/// `g` has an arc from `u` carrying alias `a`.
pub open spec fn edge_with_alias(g: GraphView, u: int, a: Seq<char>) -> bool {
    exists|k: int|
        0 <= k < g.edges.len() && (#[trigger] g.edges[k]).from == u && g.edges[k].alias == a
}

/// Every dependency that node `u` declares has an outgoing arc under
/// its alias.
pub open spec fn deps_edged(g: GraphView, u: int) -> bool {
    forall|d: int|
        0 <= d < g.nodes[u].pkg.dependencies.len() ==> edge_with_alias(
            g,
            u,
            (#[trigger] g.nodes[u].pkg.dependencies[d]).alias,
        )
}

/// Node `u` declares a dependency under alias `a`.
pub open spec fn dep_with_alias(g: GraphView, u: int, a: Seq<char>) -> bool {
    exists|d: int|
        0 <= d < g.nodes[u].pkg.dependencies.len() && (#[trigger] g.nodes[u].pkg.dependencies[
        d]).alias == a
}

/// Every arc comes from a declared dependency of its source node.
pub open spec fn edges_from_deps(g: GraphView) -> bool {
    forall|k: int|
        0 <= k < g.edges.len() ==> dep_with_alias(
            g,
            (#[trigger] g.edges[k]).from,
            g.edges[k].alias,
        )
}

/// No two dependency declarations of a manifest share an alias.
pub open spec fn aliases_distinct(p: PackageInfoView) -> bool {
    forall|i: int, j: int|
        0 <= i < j < p.dependencies.len() ==> (#[trigger] p.dependencies[i]).alias != (
        #[trigger] p.dependencies[j]).alias
}

/// Node `u`'s arcs stand contiguously from `base`, one per declared
/// dependency, in declaration order.
pub open spec fn node_edges_at(g: GraphView, u: int, base: int) -> bool {
    forall|d: int|
        0 <= d < g.nodes[u].pkg.dependencies.len() ==> base + d < g.edges.len() && g.edges[base
            + d].from == u && g.edges[base + d].alias == (
        #[trigger] g.nodes[u].pkg.dependencies[d]).alias
}

/// Node `u`'s arcs stand somewhere contiguously in declaration order.
pub open spec fn node_edges_ordered(g: GraphView, u: int) -> bool {
    exists|base: int| 0 <= base && #[trigger] node_edges_at(g, u, base)
}

/// Every node's arcs stand in its manifest's declaration order.
pub open spec fn edges_in_declaration_order(g: GraphView) -> bool {
    forall|u: int| 0 <= u < g.nodes.len() ==> #[trigger] node_edges_ordered(g, u)
}

/// What a resolution error may carry: the oracle failure and
/// duplicate-alias rejection as typed data, a duplicate-version report
/// sorted ascending without repetition and naming at least two
/// versions, or a dependency loop read as a round trip that repeats no
/// interior member.
pub open spec fn resolution_error_shape(e: ResolveError) -> bool {
    match e {
        ResolveError::Registry { package, error } => true,
        ResolveError::DuplicateAliases { package, alias } => true,
        ResolveError::DuplicateVersions { package_name, versions } => {
            &&& versions.deep_view().len() >= 2
            &&& vseq_sorted(versions.deep_view())
            &&& vseq_distinct(versions.deep_view())
        },
        ResolveError::Cycle(c) => {
            &&& c.deep_view().len() >= 2
            &&& c.deep_view()[0] == c.deep_view()[c.deep_view().len() - 1]
            &&& forall|x: int, y: int|
                0 <= x < y < c.deep_view().len() - 1 ==> c.deep_view()[x] != c.deep_view()[y]
        },
        ResolveError::UnknownDependencyAlias { package, alias } => true,
    }
}

/// The outcome of discovery: the graph rooted at index 0, and the
/// topological order of its nodes.
#[derive(Debug)]
pub struct DiscoveredPackages {
    pub root_index: usize,
    pub graph: DependencyGraph,
    pub topo_order: Vec<usize>,
}

/// A pair of positions declaring the same alias, if the list has one.
fn find_duplicate_alias(deps: &Vec<Dependency>) -> (r: Option<usize>)
    ensures
        match r {
            Some(d) => (d as int) < deps.deep_view().len() && exists|j: int|
                0 <= j < d && (#[trigger] deps.deep_view()[j]).alias == deps.deep_view()[
                d as int].alias,
            None => forall|i: int, j: int|
                0 <= i < j < deps.deep_view().len() ==> (#[trigger] deps.deep_view()[i]).alias
                    != (#[trigger] deps.deep_view()[j]).alias,
        },
{
    let ghost dv = deps.deep_view();
    let mut i: usize = 0;
    while i < deps.len()
        invariant
            dv == deps.deep_view(),
            i <= dv.len(),
            forall|a: int, b: int|
                0 <= a < b < i ==> (#[trigger] dv[a]).alias != (#[trigger] dv[b]).alias,
        decreases deps.len() - i,
    {
        let mut j: usize = 0;
        while j < i
            invariant
                dv == deps.deep_view(),
                j <= i,
                (i as int) < dv.len(),
                forall|a: int| 0 <= a < j ==> (#[trigger] dv[a]).alias != dv[i as int].alias,
            decreases i - j,
        {
            proof {
                assert(dv[j as int] == deps@[j as int]@);
                assert(dv[i as int] == deps@[i as int]@);
            }
            if str_eq(deps[j].alias.as_str(), deps[i].alias.as_str()) {
                return Some(i);
            }
            j = j + 1;
        }
        i = i + 1;
    }
    None
}

/// The node carrying this package id, if the graph has one.
fn find_node(nodes: &Vec<Node>, id: &PackageId) -> (r: Option<usize>)
    ensures
        match r {
            Some(ix) => (ix as int) < nodes.deep_view().len() && nodes.deep_view()[
            ix as int].id == id@,
            None => forall|i: int|
                0 <= i < nodes.deep_view().len() ==> (#[trigger] nodes.deep_view()[i]).id
                    != id@,
        },
{
    let ghost nv = nodes.deep_view();
    let mut i: usize = 0;
    while i < nodes.len()
        invariant
            nv == nodes.deep_view(),
            i <= nv.len(),
            forall|j: int| 0 <= j < i ==> (#[trigger] nv[j]).id != id@,
        decreases nodes.len() - i,
    {
        proof {
            assert(nv[i as int] == nodes@[i as int]@);
        }
        let same_name = str_eq(nodes[i].id.package_name.as_str(), id.package_name.as_str());
        if same_name {
            if version_eq_exec(&nodes[i].id.version, &id.version) {
                proof {
                    assert(nv[i as int].id =~= id@);
                }
                return Some(i);
            }
        }
        proof {
            assert(nv[i as int].id != id@);
        }
        i = i + 1;
    }
    None
}

/// Asks the oracle for every dependency of the list, in declaration
/// order. The answers keep the dependencies' aliases and order.
fn fetch_dependencies<S: Source>(deps: &Vec<Dependency>, source: &S) -> (r: Result<
    Vec<(String, PackageSummary)>,
    ResolveError,
>)
    ensures
        match r {
            Ok(pending) => {
                &&& pending@.len() == deps.deep_view().len()
                &&& forall|x: int|
                    0 <= x < pending@.len() ==> (#[trigger] pending@[x]).0@
                        == deps.deep_view()[x].alias
            },
            Err(e) => e is Registry && deps.deep_view().len() > 0,
        },
        deps.deep_view().len() == 0 ==> r is Ok,
{
    let ghost dv = deps.deep_view();
    let mut pending: Vec<(String, PackageSummary)> = Vec::new();
    let mut di: usize = 0;
    while di < deps.len()
        invariant
            dv == deps.deep_view(),
            di <= dv.len(),
            pending@.len() == di as int,
            forall|x: int|
                0 <= x < pending@.len() ==> (#[trigger] pending@[x]).0@ == dv[x].alias,
        decreases deps.len() - di,
    {
        proof {
            assert(dv[di as int] == deps@[di as int]@);
        }
        match source.latest(&deps[di].pkg) {
            Ok(summary) => {
                let alias = deps[di].alias.clone();
                let ghost av = alias@;
                let ghost prevp = pending@;
                pending.push((alias, summary));
                proof {
                    assert(pending@[pending@.len() - 1].0@ == av);
                    assert forall|x: int|
                        0 <= x < pending@.len() implies (#[trigger] pending@[x]).0@
                        == dv[x].alias by {
                        if x < pending@.len() - 1 {
                            assert(pending@[x] == prevp[x]);
                        }
                    }
                }
            },
            Err(error) => {
                return Err(ResolveError::Registry { package: deps[di].pkg.clone(), error });
            },
        }
        di = di + 1;
    }
    Ok(pending)
}

/// Maps a cycle of node indices to the round trip of package ids it
/// names.
pub fn cycle_error(graph: &DependencyGraph, cycle: &Vec<usize>) -> (r: ResolveError)
    requires
        closed_walk(graph@, cycle@),
    ensures
        match r {
            ResolveError::Cycle(ids) => {
                &&& ids.deep_view().len() == cycle@.len()
                &&& forall|i: int|
                    0 <= i < cycle@.len() ==> #[trigger] ids.deep_view()[i] == graph@.nodes[
                    cycle@[i] as int].id
            },
            _ => false,
        },
{
    let mut ids: Vec<PackageId> = Vec::new();
    let mut i: usize = 0;
    while i < cycle.len()
        invariant
            closed_walk(graph@, cycle@),
            i <= cycle@.len(),
            ids.deep_view().len() == i as int,
            forall|j: int|
                0 <= j < i ==> #[trigger] ids.deep_view()[j] == graph@.nodes[cycle@[
                j] as int].id,
        decreases cycle.len() - i,
    {
        proof {
            assert((cycle@[i as int] as int) < graph@.nodes.len());
            assert(graph@.nodes[cycle@[i as int] as int] == graph.nodes@[cycle@[
            i as int] as int]@);
        }
        let ix = cycle[i];
        let ghost prevv = ids@;
        let ghost prevd = ids.deep_view();
        let id = graph.nodes[ix].id.clone();
        let ghost idv = id@;
        ids.push(id);
        i = i + 1;
        proof {
            assert(ids@[ids@.len() - 1]@ == idv);
            assert forall|j: int|
                0 <= j < i implies #[trigger] ids.deep_view()[j] == graph@.nodes[cycle@[
                j] as int].id by {
                if j < i - 1 {
                    assert(ids@[j] == prevv[j]);
                    assert(ids.deep_view()[j] == ids@[j].deep_view());
                    assert(prevd[j] == prevv[j].deep_view());
                } else {
                    assert(ids.deep_view()[j] == ids@[j].deep_view());
                }
            }
        }
    }
    ResolveError::Cycle(ids)
}

} // verus!
// The module continues: the breadth-first discovery itself.

verus! {

/// `u` occurs in the frontier.
pub open spec fn in_frontier(f: Seq<usize>, u: int) -> bool {
    exists|x: int| 0 <= x < f.len() && (#[trigger] f[x]) as int == u
}

/// No arc leaves node `u`.
pub open spec fn no_out_edges(g: GraphView, u: int) -> bool {
    forall|k: int| 0 <= k < g.edges.len() ==> (#[trigger] g.edges[k]).from != u
}

/// Level-order expansion of the dependency closure: starting from the
/// root manifest, each frontier package's dependencies are fetched from
/// the oracle in declaration order and integrated, reusing the node of
/// an already-discovered package id. Ends with the topological sort.
///
/// On success the graph is structurally well-formed, the sort order is
/// pinned, node 0 is the root with no distribution payload, every other
/// node carries the payload the oracle attached, every declared
/// dependency of every node has its aliased arc, and every arc stems
/// from a declared dependency.
#[verifier::rlimit(100)]
#[verifier::spinoff_prover]
pub fn discover_dependencies<S: Source>(
    root_id: &PackageId,
    root: &PackageInfo,
    source: &S,
) -> (r: Result<DiscoveredPackages, ResolveError>)
    ensures
        match r {
            Ok(d) => {
                &&& d.root_index == 0
                &&& graph_wf(d.graph@)
                &&& topo_pinned(d.graph@, d.topo_order@)
                &&& d.graph@.nodes[0].id == root_id@
                &&& d.graph@.nodes[0].pkg == root@
                &&& d.graph@.nodes[0].dist is None
                &&& forall|j: int|
                    1 <= j < d.graph@.nodes.len() ==> (#[trigger] d.graph@.nodes[j]).dist
                        is Some
                &&& forall|u: int|
                    0 <= u < d.graph@.nodes.len() ==> deps_edged(d.graph@, u)
                &&& edges_from_deps(d.graph@)
                &&& edges_in_declaration_order(d.graph@)
                &&& forall|u: int|
                    0 <= u < d.graph@.nodes.len() ==> aliases_distinct(
                        (#[trigger] d.graph@.nodes[u]).pkg,
                    )
                &&& root@.dependencies.len() == 0 ==> d.graph@.nodes.len() == 1
                    && d.graph@.edges.len() == 0
            },
            Err(e) => {
                ||| e is Registry
                ||| e is DuplicateAliases
                ||| (e matches ResolveError::Cycle(c) && c.deep_view().len() >= 2
                    && c.deep_view()[0] == c.deep_view()[c.deep_view().len() - 1] && (forall|
                    x: int,
                    y: int,
                |
                    0 <= x < y < c.deep_view().len() - 1 ==> c.deep_view()[x]
                        != c.deep_view()[y]))
            },
        },
        root@.dependencies.len() == 0 ==> r is Ok,
        !aliases_distinct(root@) ==> r matches Err(ResolveError::DuplicateAliases { .. }),
{
    let mut nodes: Vec<Node> = Vec::new();
    let mut edges: Vec<Edge> = Vec::new();
    nodes.push(Node { id: root_id.clone(), pkg: root.clone(), dist: None });
    let mut frontier: Vec<usize> = Vec::new();
    frontier.push(0);
    proof {
        assert(nodes.deep_view().len() == 1);
        assert(nodes.deep_view()[0] == nodes@[0]@);
        assert(frontier@[0] as int == 0);
        assert(in_frontier(frontier@, 0));
    }
    while frontier.len() > 0
        invariant
            nodes.deep_view().len() >= 1,
            nodes.deep_view()[0].id == root_id@,
            nodes.deep_view()[0].pkg == root@,
            nodes.deep_view()[0].dist is None,
            forall|j: int|
                1 <= j < nodes.deep_view().len() ==> (#[trigger] nodes.deep_view()[j]).dist
                    is Some,
            edges_ok(gv(nodes.deep_view(), edges.deep_view())),
            ids_distinct(gv(nodes.deep_view(), edges.deep_view())),
            aliases_unique(gv(nodes.deep_view(), edges.deep_view())),
            forall|j: int|
                1 <= j < nodes.deep_view().len() ==> has_parent_edge(
                    gv(nodes.deep_view(), edges.deep_view()),
                    j,
                ),
            forall|x: int|
                0 <= x < frontier@.len() ==> ((#[trigger] frontier@[x]) as int)
                    < nodes.deep_view().len(),
            forall|x: int, y: int| 0 <= x < y < frontier@.len() ==> frontier@[x] != frontier@[y],
            forall|u: int|
                0 <= u < nodes.deep_view().len() ==> (in_frontier(frontier@, u) || deps_edged(
                    gv(nodes.deep_view(), edges.deep_view()),
                    u,
                )),
            forall|u: int|
                #[trigger] in_frontier(frontier@, u) ==> no_out_edges(
                    gv(nodes.deep_view(), edges.deep_view()),
                    u,
                ),
            edges_from_deps(gv(nodes.deep_view(), edges.deep_view())),
            root@.dependencies.len() == 0 ==> nodes.deep_view().len() == 1
                && edges.deep_view().len() == 0,
            in_frontier(frontier@, 0) ==> frontier@[0] as int == 0,
            forall|w: int|
                0 <= w < nodes.deep_view().len() ==> (in_frontier(frontier@, w)
                    || aliases_distinct((#[trigger] nodes.deep_view()[w]).pkg)),
            forall|w: int|
                0 <= w < nodes.deep_view().len() ==> (in_frontier(frontier@, w)
                    || #[trigger] node_edges_ordered(
                        gv(nodes.deep_view(), edges.deep_view()),
                        w,
                    )),
        decreases usize::MAX - nodes.len(), frontier.len(),
    {
        let ghost fprev = frontier@;
        let u = frontier.remove(0);
        proof {
            assert(fprev[0] == u);
            assert(in_frontier(fprev, u as int));
            assert((u as int) < nodes.deep_view().len());
            assert forall|x: int, y: int|
                0 <= x < y < frontier@.len() implies frontier@[x] != frontier@[y] by {
                assert(frontier@[x] == fprev[x + 1]);
                assert(frontier@[y] == fprev[y + 1]);
            }
            assert(!in_frontier(frontier@, u as int)) by {
                if in_frontier(frontier@, u as int) {
                    let x = choose|x: int|
                        0 <= x < frontier@.len() && (#[trigger] frontier@[x]) as int == u as int;
                    assert(fprev[x + 1] == frontier@[x]);
                    assert(fprev[0] != fprev[x + 1]);
                }
            }
            assert forall|w: int|
                #[trigger] in_frontier(frontier@, w) implies in_frontier(fprev, w) by {
                let x = choose|x: int|
                    0 <= x < frontier@.len() && (#[trigger] frontier@[x]) as int == w;
                assert(fprev[x + 1] as int == w);
            }
            assert forall|w: int|
                #[trigger] in_frontier(fprev, w) && w != u as int implies in_frontier(
                frontier@,
                w,
            ) by {
                let x = choose|x: int|
                    0 <= x < fprev.len() && (#[trigger] fprev[x]) as int == w;
                assert(x != 0);
                assert(frontier@[x - 1] == fprev[x]);
            }
            assert(no_out_edges(gv(nodes.deep_view(), edges.deep_view()), u as int));
            assert(nodes.deep_view()[u as int] == nodes@[u as int]@);
            // Node 0 leaves the frontier first and never returns.
            assert(!in_frontier(frontier@, 0)) by {
                if in_frontier(frontier@, 0) {
                    assert(in_frontier(fprev, 0));
                    assert(fprev[0] as int == 0);
                    let x = choose|x: int|
                        0 <= x < frontier@.len() && (#[trigger] frontier@[x]) as int == 0;
                    assert(fprev[x + 1] == frontier@[x]);
                    assert(fprev[0] != fprev[x + 1]);
                }
            }
            assert(u as int != 0 ==> aliases_distinct(nodes.deep_view()[0].pkg)) by {
                if u as int != 0 {
                    assert(!in_frontier(fprev, 0)) by {
                        if in_frontier(fprev, 0) {
                            assert(fprev[0] as int == 0);
                        }
                    }
                }
            }
        }
        let deps = crate::registry::clone_dependencies(&nodes[u].pkg.dependencies);
        let ghost dv = deps.deep_view();
        match find_duplicate_alias(&deps) {
            Some(d) => {
                proof {
                    assert(nodes.deep_view()[u as int] == nodes@[u as int]@);
                    assert(dv[d as int] == deps@[d as int]@);
                    // A duplicate was found, so this node has dependencies.
                    if root@.dependencies.len() == 0 {
                        assert(nodes.deep_view().len() == 1);
                        assert(u as int == 0);
                        assert(dv.len() == 0);
                        assert(false);
                    }
                }
                return Err(ResolveError::DuplicateAliases {
                    package: nodes[u].id.clone(),
                    alias: deps[d].alias.clone(),
                });
            },
            None => {},
        }
        let pending = match fetch_dependencies(&deps, source) {
            Ok(p) => p,
            Err(e) => {
                proof {
                    if root@.dependencies.len() == 0 {
                        assert(nodes.deep_view().len() == 1);
                        assert(u as int == 0);
                        assert(dv.len() == 0);
                        assert(false);
                    }
                    if !aliases_distinct(root@) {
                        if u as int == 0 {
                            assert(aliases_distinct(nodes.deep_view()[0].pkg)) by {
                                assert forall|i: int, j: int|
                                    0 <= i < j < nodes.deep_view()[0].pkg.dependencies.len()
                                    implies (#[trigger] nodes.deep_view()[
                                0].pkg.dependencies[i]).alias != (
                                #[trigger] nodes.deep_view()[0].pkg.dependencies[j]).alias by {
                                    assert(dv[i].alias != dv[j].alias);
                                }
                            }
                        }
                        assert(false);
                    }
                }
                return Err(e);
            },
        };
        let ghost nlen0 = nodes.deep_view().len();
        let ghost f1 = frontier@;
        let ghost e0 = edges.deep_view().len() as int;
        proof {
            assert(gv(nodes.deep_view(), edges.deep_view()).edges == edges.deep_view());
            assert(gv(nodes.deep_view(), edges.deep_view()).nodes == nodes.deep_view());
            assert forall|w: int|
                0 <= w < nodes.deep_view().len() implies (w == u as int || in_frontier(
                frontier@,
                w,
            ) || deps_edged(gv(nodes.deep_view(), edges.deep_view()), w)) by {
                if w != u as int && !deps_edged(gv(nodes.deep_view(), edges.deep_view()), w) {
                    assert(in_frontier(fprev, w));
                    assert(in_frontier(frontier@, w));
                }
            }
            assert forall|w: int|
                0 <= w < nodes.deep_view().len() implies (w == u as int || in_frontier(
                frontier@,
                w,
            ) || aliases_distinct((#[trigger] nodes.deep_view()[w]).pkg)) by {
                if w != u as int && !aliases_distinct(nodes.deep_view()[w].pkg) {
                    assert(in_frontier(fprev, w));
                    assert(in_frontier(frontier@, w));
                }
            }
            assert forall|w: int|
                0 <= w < nodes.deep_view().len() implies (w == u as int || in_frontier(
                frontier@,
                w,
            ) || #[trigger] node_edges_ordered(gv(nodes.deep_view(), edges.deep_view()), w))
                by {
                if w != u as int && !in_frontier(frontier@, w) {
                    if !in_frontier(fprev, w) {
                    } else {
                        assert(in_frontier(frontier@, w));
                    }
                }
            }
            assert forall|k: int|
                0 <= k < edges.deep_view().len() && (#[trigger] edges.deep_view()[k]).from
                    == u as int implies exists|x: int|
                0 <= x < 0 && (#[trigger] dv[x]).alias == edges.deep_view()[k].alias by {
                assert(no_out_edges(gv(nodes.deep_view(), edges.deep_view()), u as int));
                assert(edges.deep_view()[k].from != u as int);
            }
        }
        let mut pi: usize = 0;
        while pi < pending.len()
            invariant
                pending@.len() == dv.len(),
                forall|x: int|
                    0 <= x < pending@.len() ==> (#[trigger] pending@[x]).0@ == dv[x].alias,
                forall|a: int, b: int|
                    0 <= a < b < dv.len() ==> (#[trigger] dv[a]).alias != (
                    #[trigger] dv[b]).alias,
                pi <= pending@.len(),
                (u as int) < nlen0,
                nlen0 <= nodes.deep_view().len(),
                frontier@.len() - f1.len() == nodes.deep_view().len() - nlen0,
                f1.len() >= 0,
                nodes.deep_view()[u as int].pkg.dependencies == dv,
                nodes.deep_view().len() >= 1,
                nodes.deep_view()[0].id == root_id@,
                nodes.deep_view()[0].pkg == root@,
                nodes.deep_view()[0].dist is None,
                forall|j: int|
                    1 <= j < nodes.deep_view().len() ==> (#[trigger] nodes.deep_view()[j]).dist
                        is Some,
                edges_ok(gv(nodes.deep_view(), edges.deep_view())),
                ids_distinct(gv(nodes.deep_view(), edges.deep_view())),
                aliases_unique(gv(nodes.deep_view(), edges.deep_view())),
                forall|j: int|
                    1 <= j < nodes.deep_view().len() ==> has_parent_edge(
                        gv(nodes.deep_view(), edges.deep_view()),
                        j,
                    ),
                forall|x: int|
                    0 <= x < frontier@.len() ==> ((#[trigger] frontier@[x]) as int)
                        < nodes.deep_view().len(),
                forall|x: int, y: int|
                    0 <= x < y < frontier@.len() ==> frontier@[x] != frontier@[y],
                !in_frontier(frontier@, u as int),
                forall|w: int|
                    0 <= w < nodes.deep_view().len() ==> (w == u as int || in_frontier(
                        frontier@,
                        w,
                    ) || deps_edged(gv(nodes.deep_view(), edges.deep_view()), w)),
                forall|w: int|
                    #[trigger] in_frontier(frontier@, w) ==> no_out_edges(
                        gv(nodes.deep_view(), edges.deep_view()),
                        w,
                    ),
                edges_from_deps(gv(nodes.deep_view(), edges.deep_view())),
                forall|k: int|
                    0 <= k < edges.deep_view().len() && (#[trigger] edges.deep_view()[k]).from
                        == u as int ==> exists|x: int|
                        0 <= x < pi && (#[trigger] dv[x]).alias == edges.deep_view()[k].alias,
                forall|x: int|
                    0 <= x < pi ==> edge_with_alias(
                        gv(nodes.deep_view(), edges.deep_view()),
                        u as int,
                        (#[trigger] dv[x]).alias,
                    ),
                root@.dependencies.len() == 0 ==> nodes.deep_view().len() == 1
                    && edges.deep_view().len() == 0,
                in_frontier(frontier@, 0) ==> frontier@[0] as int == 0,
                forall|w: int|
                    0 <= w < nodes.deep_view().len() ==> (w == u as int || in_frontier(
                        frontier@,
                        w,
                    ) || aliases_distinct((#[trigger] nodes.deep_view()[w]).pkg)),
                forall|w: int|
                    0 <= w < nodes.deep_view().len() ==> (w == u as int || in_frontier(
                        frontier@,
                        w,
                    ) || #[trigger] node_edges_ordered(
                        gv(nodes.deep_view(), edges.deep_view()),
                        w,
                    )),
                e0 >= 0,
                edges.deep_view().len() == e0 + pi,
                forall|x: int|
                    0 <= x < pi ==> edges.deep_view()[e0 + x].from == u as int
                        && edges.deep_view()[e0 + x].alias == (#[trigger] dv[x]).alias,
            decreases pending.len() - pi,
        {
            let ghost nprev = nodes.deep_view();
            let ghost eprev = edges.deep_view();
            let ghost fprev2 = frontier@;
            proof {
                assert(pending@[pi as int].0@ == dv[pi as int].alias);
                // A dependency is being integrated, so the root has some.
                if root@.dependencies.len() == 0 {
                    assert(nodes.deep_view().len() == 1);
                    assert(u as int == 0);
                    assert(dv.len() == 0);
                    assert(false);
                }
            }
            let dep_id = pending[pi].1.package_id();
            let dep_index: usize = match find_node(&nodes, &dep_id) {
                Some(ix) => ix,
                None => {
                    let new_node = Node {
                        id: dep_id,
                        pkg: pending[pi].1.pkg.clone(),
                        dist: Some(pending[pi].1.dist.clone()),
                    };
                    let ghost nnv = new_node@;
                    nodes.push(new_node);
                    let ix = nodes.len() - 1;
                    frontier.push(ix);
                    proof {
                        assert(nodes.deep_view().len() == nprev.len() + 1);
                        assert forall|j: int|
                            0 <= j < nodes.deep_view().len() implies #[trigger] nodes.deep_view()[j]
                            == (if j < nprev.len() {
                            nprev[j]
                        } else {
                            nnv
                        }) by {
                            if j < nprev.len() {
                                assert(nodes.deep_view()[j] == nodes@[j].deep_view());
                            } else {
                                assert(nodes.deep_view()[j] == nodes@[j].deep_view());
                            }
                        }
                        assert(frontier@ == fprev2.push(ix));
                        assert forall|x: int, y: int|
                            0 <= x < y < frontier@.len() implies frontier@[x] != frontier@[y] by {
                            if y == frontier@.len() - 1 {
                                if frontier@[x] == frontier@[y] {
                                    assert(fprev2[x] == ix);
                                    assert((ix as int) < nprev.len());
                                }
                            }
                        }
                        assert(!in_frontier(frontier@, u as int)) by {
                            if in_frontier(frontier@, u as int) {
                                let x = choose|x: int|
                                    0 <= x < frontier@.len() && (#[trigger] frontier@[x]) as int
                                        == u as int;
                                if x < frontier@.len() - 1 {
                                    assert(fprev2[x] as int == u as int);
                                    assert(in_frontier(fprev2, u as int));
                                } else {
                                    assert(ix as int == u as int);
                                }
                            }
                        }
                        assert(ix as int == nprev.len());
                        assert(in_frontier(frontier@, 0) ==> frontier@[0] as int == 0) by {
                            if in_frontier(frontier@, 0) {
                                let x = choose|x: int|
                                    0 <= x < frontier@.len() && (#[trigger] frontier@[x]) as int
                                        == 0;
                                if x < frontier@.len() - 1 {
                                    assert(fprev2[x] as int == 0);
                                    assert(in_frontier(fprev2, 0));
                                    assert(fprev2[0] as int == 0);
                                    assert(frontier@[0] == fprev2[0]);
                                } else {
                                    assert(ix as int == 0);
                                }
                            }
                        }
                    }
                    ix
                },
            };
            proof {
                assert((dep_index as int) < nodes.deep_view().len());
            }
            let alias = pending[pi].0.clone();
            let ghost av = alias@;
            edges.push(Edge { from: u, to: dep_index, alias });
            pi = pi + 1;
            proof {
                let nv2 = nodes.deep_view();
                let ev2 = edges.deep_view();
                let g2 = gv(nv2, ev2);
                assert(g2.edges == ev2);
                assert(g2.nodes == nv2);
                assert(gv(nprev, eprev).edges == eprev);
                assert(gv(nprev, eprev).nodes == nprev);
                assert(ev2.len() == eprev.len() + 1);
                assert forall|k: int|
                    0 <= k < ev2.len() implies #[trigger] ev2[k] == (if k < eprev.len() {
                    eprev[k]
                } else {
                    EdgeView { from: u as int, to: dep_index as int, alias: av }
                }) by {
                    assert(ev2[k] == edges@[k].deep_view());
                }
                assert(av == dv[pi - 1].alias);
                // structural invariants
                assert forall|k: int|
                    0 <= k < ev2.len() implies crate::graph::edge_ok(g2, #[trigger] g2.edges[k])
                    by {
                    if k < eprev.len() {
                        assert(crate::graph::edge_ok(gv(nprev, eprev), eprev[k]));
                    }
                }
                assert(edges_ok(g2));
                assert forall|i2: int, j2: int|
                    0 <= i2 < j2 < nv2.len() implies (#[trigger] nv2[i2]).id != (
                    #[trigger] nv2[j2]).id by {
                    if j2 < nprev.len() {
                        assert(nv2[i2] == nprev[i2]);
                        assert(nv2[j2] == nprev[j2]);
                    } else {
                        assert(nv2[i2] == nprev[i2]);
                        assert(nprev[i2].id != nv2[j2].id);
                    }
                }
                assert(ids_distinct(g2));
                assert forall|j: int|
                    1 <= j < nv2.len() implies (#[trigger] nv2[j]).dist is Some by {
                    if j < nprev.len() {
                        assert(nv2[j] == nprev[j]);
                    }
                }
                assert forall|k: int, l: int|
                    0 <= k < ev2.len() && 0 <= l < ev2.len() && k != l && (
                    #[trigger] ev2[k]).from == (#[trigger] ev2[l]).from implies ev2[k].alias
                    != ev2[l].alias by {
                    if l == ev2.len() - 1 && k < eprev.len() {
                        if ev2[k].from == u as int {
                            let x = choose|x: int|
                                0 <= x < pi - 1 && (#[trigger] dv[x]).alias == eprev[k].alias;
                            assert(dv[x].alias != dv[pi - 1].alias);
                        }
                    } else if k == ev2.len() - 1 && l < eprev.len() {
                        if ev2[l].from == u as int {
                            let x = choose|x: int|
                                0 <= x < pi - 1 && (#[trigger] dv[x]).alias == eprev[l].alias;
                            assert(dv[x].alias != dv[pi - 1].alias);
                        }
                    }
                }
                assert forall|j: int|
                    1 <= j < nv2.len() implies has_parent_edge(g2, j) by {
                    if j < nprev.len() {
                        assert(has_parent_edge(gv(nprev, eprev), j));
                        let k = choose|k: int|
                            0 <= k < eprev.len() && (#[trigger] eprev[k]).to == j && eprev[
                            k].from < j;
                        assert(ev2[k] == eprev[k]);
                        assert(has_parent_edge(g2, j));
                    } else {
                        assert(nv2.len() == nprev.len() + 1);
                        assert(j == nprev.len());
                        assert(j == dep_index as int);
                        assert(ev2[ev2.len() - 1].to == j && ev2[ev2.len() - 1].from < j);
                        assert(has_parent_edge(g2, j));
                    }
                }
                assert forall|w: int|
                    0 <= w < nv2.len() implies (w == u as int || in_frontier(frontier@, w)
                    || deps_edged(g2, w)) by {
                    if w >= nprev.len() {
                        assert(w == dep_index as int);
                        assert(frontier@[frontier@.len() - 1] as int == w);
                        assert(in_frontier(frontier@, w));
                    } else if w < nprev.len() && w != u as int && !in_frontier(frontier@, w) {
                        assert(!in_frontier(fprev2, w)) by {
                            if in_frontier(fprev2, w) {
                                let x = choose|x: int|
                                    0 <= x < fprev2.len() && (#[trigger] fprev2[x]) as int == w;
                                assert(frontier@[x] as int == w);
                            }
                        }
                        assert(deps_edged(gv(nprev, eprev), w));
                        assert(nv2[w] == nprev[w]);
                        assert forall|d: int|
                            0 <= d < nv2[w].pkg.dependencies.len() implies edge_with_alias(
                            g2,
                            w,
                            (#[trigger] nv2[w].pkg.dependencies[d]).alias,
                        ) by {
                            assert(edge_with_alias(
                                gv(nprev, eprev),
                                w,
                                nprev[w].pkg.dependencies[d].alias,
                            ));
                            let k = choose|k: int|
                                0 <= k < eprev.len() && (#[trigger] eprev[k]).from == w && eprev[
                                k].alias == nprev[w].pkg.dependencies[d].alias;
                            assert(ev2[k] == eprev[k]);
                        }
                    }
                }
                assert forall|w: int|
                    #[trigger] in_frontier(frontier@, w) implies no_out_edges(g2, w) by {
                    assert(w != u as int);
                    assert forall|k: int|
                        0 <= k < ev2.len() implies (#[trigger] ev2[k]).from != w by {
                        if k < eprev.len() {
                            if in_frontier(fprev2, w) {
                                assert(no_out_edges(gv(nprev, eprev), w));
                            } else {
                                // w is the newly pushed node: it has no
                                // earlier edges because its index is new
                                assert(w >= nprev.len());
                                assert(edges_ok(gv(nprev, eprev)));
                                assert(0 <= eprev[k].from < nprev.len());
                            }
                        }
                    }
                }
                assert forall|k: int|
                    0 <= k < ev2.len() implies dep_with_alias(
                    g2,
                    (#[trigger] ev2[k]).from,
                    ev2[k].alias,
                ) by {
                    if k < eprev.len() {
                        assert(dep_with_alias(gv(nprev, eprev), eprev[k].from, eprev[k].alias));
                        let d = choose|d: int|
                            0 <= d < nprev[eprev[k].from].pkg.dependencies.len() && (
                            #[trigger] nprev[eprev[k].from].pkg.dependencies[d]).alias == eprev[
                            k].alias;
                        assert(edges_ok(gv(nprev, eprev)));
                        assert(nv2[eprev[k].from] == nprev[eprev[k].from]);
                    } else {
                        assert(nv2[u as int].pkg.dependencies[pi - 1].alias == av);
                    }
                }
                assert forall|k: int|
                    0 <= k < ev2.len() && (#[trigger] ev2[k]).from == u as int
                    implies exists|x: int|
                    0 <= x < pi && (#[trigger] dv[x]).alias == ev2[k].alias by {
                    if k < eprev.len() {
                        let x = choose|x: int|
                            0 <= x < pi - 1 && (#[trigger] dv[x]).alias == eprev[k].alias;
                    } else {
                        assert(dv[pi - 1].alias == ev2[k].alias);
                    }
                }
                assert forall|x: int|
                    0 <= x < pi implies edge_with_alias(g2, u as int, (#[trigger] dv[x]).alias)
                    by {
                    if x < pi - 1 {
                        assert(edge_with_alias(gv(nprev, eprev), u as int, dv[x].alias));
                        let k = choose|k: int|
                            0 <= k < eprev.len() && (#[trigger] eprev[k]).from == u as int
                                && eprev[k].alias == dv[x].alias;
                        assert(ev2[k] == eprev[k]);
                    } else {
                        assert(ev2[ev2.len() - 1].from == u as int && ev2[ev2.len() - 1].alias
                            == dv[x].alias);
                    }
                }
                // The new arc extends the contiguous run of `u`'s arcs.
                assert(ev2.len() == e0 + pi);
                assert forall|x: int|
                    0 <= x < pi implies ev2[e0 + x].from == u as int && ev2[e0 + x].alias == (
                #[trigger] dv[x]).alias by {
                    if x < pi - 1 {
                        assert(eprev.len() == e0 + pi - 1);
                        assert(eprev[e0 + x].from == u as int && eprev[e0 + x].alias
                            == dv[x].alias);
                        assert(ev2[e0 + x] == eprev[e0 + x]);
                    } else {
                        assert(e0 + x == ev2.len() - 1);
                    }
                }
                assert forall|w: int|
                    0 <= w < nv2.len() implies (w == u as int || in_frontier(frontier@, w)
                    || aliases_distinct((#[trigger] nv2[w]).pkg)) by {
                    if w >= nprev.len() {
                        assert(w == dep_index as int);
                        assert(frontier@[frontier@.len() - 1] as int == w);
                        assert(in_frontier(frontier@, w));
                    } else if w != u as int && !in_frontier(frontier@, w) {
                        assert(!in_frontier(fprev2, w)) by {
                            if in_frontier(fprev2, w) {
                                let x = choose|x: int|
                                    0 <= x < fprev2.len() && (#[trigger] fprev2[x]) as int == w;
                                assert(frontier@[x] as int == w);
                            }
                        }
                        assert(nv2[w] == nprev[w]);
                        assert(aliases_distinct(nprev[w].pkg));
                    }
                }
                assert forall|w: int|
                    0 <= w < nv2.len() implies (w == u as int || in_frontier(frontier@, w)
                    || #[trigger] node_edges_ordered(g2, w)) by {
                    if w >= nprev.len() {
                        assert(w == dep_index as int);
                        assert(frontier@[frontier@.len() - 1] as int == w);
                        assert(in_frontier(frontier@, w));
                    } else if w != u as int && !in_frontier(frontier@, w) {
                        assert(!in_frontier(fprev2, w)) by {
                            if in_frontier(fprev2, w) {
                                let x = choose|x: int|
                                    0 <= x < fprev2.len() && (#[trigger] fprev2[x]) as int == w;
                                assert(frontier@[x] as int == w);
                            }
                        }
                        assert(node_edges_ordered(gv(nprev, eprev), w));
                        let base = choose|base: int|
                            0 <= base && #[trigger] node_edges_at(gv(nprev, eprev), w, base);
                        assert(node_edges_at(g2, w, base)) by {
                            assert(nv2[w] == nprev[w]);
                            assert forall|d: int|
                                0 <= d < g2.nodes[w].pkg.dependencies.len() implies base + d
                                    < g2.edges.len() && g2.edges[base + d].from == w
                                    && g2.edges[base + d].alias == (
                            #[trigger] g2.nodes[w].pkg.dependencies[d]).alias by {
                                assert(base + d < eprev.len() && eprev[base + d].from == w
                                    && eprev[base + d].alias
                                    == nprev[w].pkg.dependencies[d].alias);
                                assert(ev2[base + d] == eprev[base + d]);
                            }
                        }
                    }
                }
            }
        }
        proof {
            // After integration the popped node's dependencies are edged,
            // contiguously and in declaration order.
            assert(gv(nodes.deep_view(), edges.deep_view()).edges == edges.deep_view());
            assert(gv(nodes.deep_view(), edges.deep_view()).nodes == nodes.deep_view());
            assert(deps_edged(gv(nodes.deep_view(), edges.deep_view()), u as int)) by {
                assert forall|d: int|
                    0 <= d < nodes.deep_view()[u as int].pkg.dependencies.len()
                    implies edge_with_alias(
                    gv(nodes.deep_view(), edges.deep_view()),
                    u as int,
                    (#[trigger] nodes.deep_view()[u as int].pkg.dependencies[d]).alias,
                ) by {
                    assert(nodes.deep_view()[u as int].pkg.dependencies[d].alias == dv[d].alias);
                }
            }
            assert(aliases_distinct(nodes.deep_view()[u as int].pkg)) by {
                assert forall|i: int, j: int|
                    0 <= i < j < nodes.deep_view()[u as int].pkg.dependencies.len()
                    implies (#[trigger] nodes.deep_view()[u as int].pkg.dependencies[i]).alias
                    != (#[trigger] nodes.deep_view()[u as int].pkg.dependencies[j]).alias by {
                    assert(dv[i].alias != dv[j].alias);
                }
            }
            assert(node_edges_at(gv(nodes.deep_view(), edges.deep_view()), u as int, e0)) by {
                assert forall|d: int|
                    0 <= d < nodes.deep_view()[u as int].pkg.dependencies.len() implies e0 + d
                        < edges.deep_view().len() && edges.deep_view()[e0 + d].from == u as int
                        && edges.deep_view()[e0 + d].alias == (
                #[trigger] nodes.deep_view()[u as int].pkg.dependencies[d]).alias by {
                    assert(edges.deep_view()[e0 + d].from == u as int && edges.deep_view()[e0
                        + d].alias == dv[d].alias);
                }
            }
            assert(node_edges_ordered(gv(nodes.deep_view(), edges.deep_view()), u as int));
        }
    }
    let graph = DependencyGraph::new(0, nodes, edges);
    proof {
        assert(graph@.edges == graph.edges.deep_view());
        assert(graph@.nodes == graph.nodes.deep_view());
        assert(graph_wf(graph@)) by {
            assert forall|u: int|
                0 <= u < graph@.nodes.len() implies !in_frontier(frontier@, u) by {
                if in_frontier(frontier@, u) {
                    let x = choose|x: int|
                        0 <= x < frontier@.len() && (#[trigger] frontier@[x]) as int == u;
                }
            }
        }
    }
    match toposort(&graph) {
        Ok(topo_order) => {
            proof {
                assert(graph@ == gv(graph@.nodes, graph@.edges));
                assert forall|u: int|
                    0 <= u < graph@.nodes.len() implies deps_edged(graph@, u) by {
                    assert(!in_frontier(frontier@, u)) by {
                        if in_frontier(frontier@, u) {
                            let x = choose|x: int|
                                0 <= x < frontier@.len() && (#[trigger] frontier@[x]) as int
                                    == u;
                        }
                    }
                    assert(deps_edged(gv(graph@.nodes, graph@.edges), u));
                }
                assert(edges_from_deps(gv(graph@.nodes, graph@.edges)));
                assert(edges_from_deps(graph@));
                assert forall|u: int|
                    0 <= u < graph@.nodes.len() implies aliases_distinct(
                    (#[trigger] graph@.nodes[u]).pkg,
                ) by {
                    assert(!in_frontier(frontier@, u)) by {
                        if in_frontier(frontier@, u) {
                            let x = choose|x: int|
                                0 <= x < frontier@.len() && (#[trigger] frontier@[x]) as int
                                    == u;
                        }
                    }
                }
                assert forall|u: int|
                    0 <= u < graph@.nodes.len() implies #[trigger] node_edges_ordered(
                    graph@,
                    u,
                ) by {
                    assert(!in_frontier(frontier@, u)) by {
                        if in_frontier(frontier@, u) {
                            let x = choose|x: int|
                                0 <= x < frontier@.len() && (#[trigger] frontier@[x]) as int
                                    == u;
                        }
                    }
                    assert(node_edges_ordered(gv(nodes.deep_view(), edges.deep_view()), u));
                    let base = choose|base: int|
                        0 <= base && #[trigger] node_edges_at(
                            gv(nodes.deep_view(), edges.deep_view()),
                            u,
                            base,
                        );
                    assert(gv(nodes.deep_view(), edges.deep_view()) == graph@) by {
                        assert(graph@.nodes == nodes.deep_view());
                        assert(graph@.edges == edges.deep_view());
                    }
                    assert(node_edges_at(graph@, u, base));
                }
                assert(edges_in_declaration_order(graph@));
                if !aliases_distinct(root@) {
                    assert(aliases_distinct(graph@.nodes[0].pkg));
                    assert(false);
                }
            }
            Ok(DiscoveredPackages { root_index: 0, graph, topo_order })
        },
        Err(c) => {
            let e = cycle_error(&graph, &c);
            proof {
                // A cycle means edges exist, so the root had dependencies;
                // and the root's aliases were checked before any arc.
                if root@.dependencies.len() == 0 {
                    assert(graph@.edges.len() == 0);
                    assert(c@.len() >= 2);
                    assert(has_edge(graph@, c@[0] as int, c@[1] as int));
                    let k = choose|k: int|
                        0 <= k < graph@.edges.len() && (#[trigger] graph@.edges[k]).from == c@[
                        0] as int && graph@.edges[k].to == c@[1] as int;
                    assert(false);
                }
                if !aliases_distinct(root@) {
                    assert(!in_frontier(frontier@, 0)) by {
                        if in_frontier(frontier@, 0) {
                            let x = choose|x: int|
                                0 <= x < frontier@.len() && (#[trigger] frontier@[x]) as int
                                    == 0;
                        }
                    }
                    assert(aliases_distinct(graph@.nodes[0].pkg));
                    assert(false);
                }
                match &e {
                    ResolveError::Cycle(ids) => {
                        assert(ids.deep_view().len() >= 2);
                        assert(ids.deep_view()[0] == graph@.nodes[c@[0] as int].id);
                        assert(c@[0] == c@[c@.len() - 1]);
                        assert forall|x: int, y: int|
                            0 <= x < y < ids.deep_view().len() - 1 implies ids.deep_view()[x]
                            != ids.deep_view()[y] by {
                            assert(c@[x] != c@[y]);
                            assert(ids.deep_view()[x] == graph@.nodes[c@[x] as int].id);
                            assert(ids.deep_view()[y] == graph@.nodes[c@[y] as int].id);
                            if (c@[x] as int) < (c@[y] as int) {
                                assert(graph@.nodes[c@[x] as int].id != graph@.nodes[c@[
                                y] as int].id);
                            } else {
                                assert(graph@.nodes[c@[y] as int].id != graph@.nodes[c@[
                                x] as int].id);
                            }
                        }
                    },
                    _ => {},
                }
            }
            Err(e)
        },
    }
}

} // verus!
// The module continues: the topological fold into a resolved package.

verus! {

/// The unique greedy topological order of an acyclic graph.
pub open spec fn the_topo(g: GraphView) -> Seq<usize> {
    choose|ord: Seq<usize>| topo_pinned(g, ord)
}

/// Two pinned topological orders agree on every prefix position.
proof fn lemma_topo_unique_prefix(g: GraphView, a: Seq<usize>, b: Seq<usize>, j: int)
    requires
        topo_pinned(g, a),
        topo_pinned(g, b),
        0 <= j < a.len(),
        forall|m: int| 0 <= m < j ==> a[m] == b[m],
    ensures
        a[j] == b[j],
{
    assert forall|x: int| #[trigger] in_prefix(a, j, x) implies in_prefix(b, j, x) by {
        let m = choose|m: int| 0 <= m < j && (#[trigger] a[m]) as int == x;
        assert(b[m] as int == x);
    }
    assert forall|x: int| #[trigger] in_prefix(b, j, x) implies in_prefix(a, j, x) by {
        let m = choose|m: int| 0 <= m < j && (#[trigger] b[m]) as int == x;
        assert(a[m] as int == x);
    }
    if a[j] != b[j] {
        if a[j] < b[j] {
            assert(crate::graph::preds_done(g, b, j, b[j] as int));
            assert(crate::graph::preds_done(g, a, j, b[j] as int)) by {
                assert forall|k: int|
                    0 <= k < g.edges.len() && (#[trigger] g.edges[k]).to == b[j] as int
                    implies in_prefix(a, j, g.edges[k].from) by {
                    assert(in_prefix(b, j, g.edges[k].from));
                }
            }
            assert(in_prefix(a, j, b[j] as int));
            let m = choose|m: int| 0 <= m < j && (#[trigger] a[m]) as int == b[j] as int;
            assert(b[m] == b[j]);
        } else {
            assert(crate::graph::preds_done(g, a, j, a[j] as int));
            assert(crate::graph::preds_done(g, b, j, a[j] as int)) by {
                assert forall|k: int|
                    0 <= k < g.edges.len() && (#[trigger] g.edges[k]).to == a[j] as int
                    implies in_prefix(b, j, g.edges[k].from) by {
                    assert(in_prefix(a, j, g.edges[k].from));
                }
            }
            assert(in_prefix(b, j, a[j] as int));
            let m = choose|m: int| 0 <= m < j && (#[trigger] b[m]) as int == a[j] as int;
            assert(a[m] == a[j]);
        }
    }
}

/// Two pinned topological orders agree on their first `j` positions.
proof fn lemma_topo_unique_upto(g: GraphView, a: Seq<usize>, b: Seq<usize>, j: int)
    requires
        topo_pinned(g, a),
        topo_pinned(g, b),
        0 <= j <= a.len(),
    ensures
        forall|m: int| 0 <= m < j ==> a[m] == b[m],
    decreases j,
{
    if j > 0 {
        lemma_topo_unique_upto(g, a, b, j - 1);
        lemma_topo_unique_prefix(g, a, b, j - 1);
    }
}

/// The pinned topological order is unique.
pub proof fn lemma_topo_unique(g: GraphView, a: Seq<usize>, b: Seq<usize>)
    requires
        topo_pinned(g, a),
        topo_pinned(g, b),
    ensures
        a == b,
{
    lemma_topo_unique_upto(g, a, b, a.len() as int);
    assert(a =~= b);
}

/// The package providing one filesystem mapping: the declaring node, or
/// the target of its aliased arc.
pub open spec fn fs_map_package(g: GraphView, u: int, m: crate::registry::FsMappingView)
    -> PackageIdView {
    match m.dependency_name {
        None => g.nodes[u].id,
        Some(a) => {
            let k = choose|k: int|
                0 <= k < g.edges.len() && (#[trigger] g.edges[k]).from == u && g.edges[k].alias
                    == a;
            g.nodes[g.edges[k].to].id
        },
    }
}

/// One mapping resolved against its declaring node.
pub open spec fn resolved_mapping(g: GraphView, u: int, m: crate::registry::FsMappingView)
    -> ResolvedFsView {
    ResolvedFsView {
        mount_path: m.mount_path,
        original_path: m.original_path,
        volume_name: m.volume_name,
        package: fs_map_package(g, u, m),
    }
}

/// The resolved mappings that node `u` contributes, in declaration
/// order.
pub open spec fn node_mappings(g: GraphView, u: int) -> Seq<ResolvedFsView> {
    g.nodes[u].pkg.filesystem.map_values(|m: crate::registry::FsMappingView| resolved_mapping(g, u, m))
}

/// The mappings of the nodes from position `i` on, in topological
/// order.
pub open spec fn fs_fold(g: GraphView, ord: Seq<usize>, i: int) -> Seq<ResolvedFsView>
    decreases ord.len() - i,
{
    if i < 0 || i >= ord.len() {
        Seq::<ResolvedFsView>::empty()
    } else {
        node_mappings(g, ord[i] as int) + fs_fold(g, ord, i + 1)
    }
}

/// Whether the accumulator already holds a command of this name.
pub open spec fn cmd_has_name(acc: Seq<ItemLocationView>, name: Seq<char>) -> bool {
    exists|x: int| 0 <= x < acc.len() && (#[trigger] acc[x]).name == name
}

/// Folds the commands of node `u` from position `ci` on into the
/// accumulator; the first declaration of a name wins.
pub open spec fn add_node_cmds(g: GraphView, u: int, ci: int, acc: Seq<ItemLocationView>)
    -> Seq<ItemLocationView>
    decreases g.nodes[u].pkg.commands.len() - ci,
{
    if ci < 0 || ci >= g.nodes[u].pkg.commands.len() {
        acc
    } else {
        let name = g.nodes[u].pkg.commands[ci];
        add_node_cmds(
            g,
            u,
            ci + 1,
            if cmd_has_name(acc, name) {
                acc
            } else {
                acc.push(ItemLocationView { name, package: g.nodes[u].id })
            },
        )
    }
}

/// Folds the commands of the nodes from position `i` on into the
/// accumulator.
pub open spec fn cmds_fold(g: GraphView, ord: Seq<usize>, i: int, acc: Seq<ItemLocationView>)
    -> Seq<ItemLocationView>
    decreases ord.len() - i,
{
    if i < 0 || i >= ord.len() {
        acc
    } else {
        cmds_fold(g, ord, i + 1, add_node_cmds(g, ord[i] as int, 0, acc))
    }
}

/// The first declared entrypoint among the nodes from position `i` on.
pub open spec fn entry_fold(g: GraphView, ord: Seq<usize>, i: int) -> Option<Seq<char>>
    decreases ord.len() - i,
{
    if i < 0 || i >= ord.len() {
        None
    } else {
        match g.nodes[ord[i] as int].pkg.entrypoint {
            Some(e) => Some(e),
            None => entry_fold(g, ord, i + 1),
        }
    }
}

/// The resolved entrypoint: the root's, or the first inherited one in
/// topological order.
pub open spec fn spec_entrypoint(g: GraphView, ord: Seq<usize>) -> Option<Seq<char>> {
    match g.nodes[g.root].pkg.entrypoint {
        Some(e) => Some(e),
        None => entry_fold(g, ord, 0),
    }
}

/// Every mapping with a dependency name has a matching aliased arc.
pub open spec fn mappings_resolvable(g: GraphView) -> bool {
    forall|u: int, mi: int|
        #![trigger g.nodes[u].pkg.filesystem[mi]]
        0 <= u < g.nodes.len() && 0 <= mi < g.nodes[u].pkg.filesystem.len() ==> match g.nodes[
        u].pkg.filesystem[mi].dependency_name {
            None => true,
            Some(a) => edge_with_alias(g, u, a),
        }
}

} // verus!
// The module continues: the fold itself.

verus! {

/// Whether the accumulated command list holds this name.
fn commands_have_name(commands: &Vec<ItemLocation>, name: &str) -> (r: bool)
    ensures
        r == cmd_has_name(commands.deep_view(), name@),
{
    let mut x: usize = 0;
    while x < commands.len()
        invariant
            x <= commands.deep_view().len(),
            forall|y: int| 0 <= y < x ==> (#[trigger] commands.deep_view()[y]).name != name@,
        decreases commands.len() - x,
    {
        proof {
            assert(commands.deep_view()[x as int] == commands@[x as int]@);
        }
        if str_eq(commands[x].name.as_str(), name) {
            return true;
        }
        x = x + 1;
    }
    false
}

/// The target of the arc from `u` carrying alias `a`, if any.
fn find_edge_target(graph: &DependencyGraph, u: usize, a: &str) -> (r: Option<usize>)
    requires
        edges_ok(graph@),
        aliases_unique(graph@),
    ensures
        match r {
            Some(t) => edge_with_alias(graph@, u as int, a@) && (t as int) < graph@.nodes.len()
                && fs_target_is(graph@, u as int, a@, t as int),
            None => !edge_with_alias(graph@, u as int, a@),
        },
{
    let ghost g = graph@;
    proof {
        assert(g.edges == graph.edges.deep_view());
        assert(g.nodes == graph.nodes.deep_view());
    }
    let mut k: usize = 0;
    while k < graph.edges.len()
        invariant
            g == graph@,
            g.edges == graph.edges.deep_view(),
            edges_ok(g),
            aliases_unique(g),
            k <= g.edges.len(),
            forall|m: int|
                0 <= m < k ==> !((#[trigger] g.edges[m]).from == u as int && g.edges[m].alias
                    == a@),
        decreases graph.edges.len() - k,
    {
        proof {
            assert(g.edges[k as int] == graph.edges@[k as int]@);
        }
        if graph.edges[k].from == u {
            if str_eq(graph.edges[k].alias.as_str(), a) {
                let t = graph.edges[k].to;
                proof {
                    assert(edge_with_alias(g, u as int, a@));
                    let k2 = choose|k2: int|
                        0 <= k2 < g.edges.len() && (#[trigger] g.edges[k2]).from == u as int
                            && g.edges[k2].alias == a@;
                    assert(k2 == k as int) by {
                        if k2 != k as int {
                            assert(g.edges[k2].alias != g.edges[k as int].alias);
                        }
                    }
                }
                return Some(t);
            }
        }
        k = k + 1;
    }
    None
}

/// The chosen arc for alias `a` from `u` targets node `t`.
pub open spec fn fs_target_is(g: GraphView, u: int, a: Seq<char>, t: int) -> bool {
    ({
        let k = choose|k: int|
            0 <= k < g.edges.len() && (#[trigger] g.edges[k]).from == u && g.edges[k].alias
                == a;
        g.edges[k].to == t
    })
}

/// What the fold yields for a graph: the root's declared identity, the
/// entrypoint, the command winners and the reversed overlay list, all
/// functions of the graph alone through its unique greedy topological
/// order.
pub open spec fn is_resolved_view(g: GraphView, p: ResolvedPackageView) -> bool {
    &&& p.root_package == info_id(g.nodes[g.root].pkg)
    &&& p.entrypoint == spec_entrypoint(g, the_topo(g))
    &&& p.commands == cmds_fold(g, the_topo(g), 0, Seq::<ItemLocationView>::empty())
    &&& p.filesystem == fs_fold(g, the_topo(g), 0).reverse()
}

/// Idempotence of the fold: two resolved views of one graph agree in
/// every part, so resolving the same discovered graph twice yields
/// identical output.
pub proof fn lemma_resolution_deterministic(
    g: GraphView,
    p1: ResolvedPackageView,
    p2: ResolvedPackageView,
)
    requires
        is_resolved_view(g, p1),
        is_resolved_view(g, p2),
    ensures
        p1.root_package == p2.root_package,
        p1.entrypoint == p2.entrypoint,
        p1.commands == p2.commands,
        p1.filesystem == p2.filesystem,
{
}

/// Folds the discovered graph into the runtime view of the root
/// package, walking the nodes in topological order: the entrypoint is
/// the root's or the first inherited one; the first declaration of a
/// command name wins; filesystem overlays accumulate root-first and are
/// reversed, so nearer-to-root overlays mount later.
#[verifier::rlimit(100)]
#[verifier::spinoff_prover]
pub fn resolve_package(dependency_graph: &DependencyGraph) -> (r: Result<
    ResolvedPackage,
    ResolveError,
>)
    requires
        edges_ok(dependency_graph@),
        aliases_unique(dependency_graph@),
        0 <= dependency_graph@.root < dependency_graph@.nodes.len(),
        !has_cycle(dependency_graph@),
    ensures
        match r {
            Ok(p) => mappings_resolvable(dependency_graph@) && is_resolved_view(
                dependency_graph@,
                p@,
            ),
            Err(e) => e is UnknownDependencyAlias && !mappings_resolvable(dependency_graph@),
        },
{
    let ghost g = dependency_graph@;
    proof {
        assert(g.edges == dependency_graph.edges.deep_view());
        assert(g.nodes == dependency_graph.nodes.deep_view());
    }
    let ord = match toposort(dependency_graph) {
        Ok(o) => o,
        Err(c) => {
            proof {
                lemma_closed_walk_cycle(g, c@);
                assert(false);
            }
            unreached()
        },
    };
    proof {
        assert(topo_pinned(g, the_topo(g))) by {
            assert(topo_pinned(g, ord@));
        }
        lemma_topo_unique(g, ord@, the_topo(g));
    }
    let ghost ordv = ord@;
    let root_entry = match &dependency_graph.root_info().entrypoint {
        Some(e) => Some(e.clone()),
        None => None,
    };
    let mut entrypoint: Option<String> = root_entry;
    let mut commands: Vec<ItemLocation> = Vec::new();
    let mut filesystem: Vec<ResolvedFileSystemMapping> = Vec::new();
    proof {
        assert(commands.deep_view() =~= Seq::<ItemLocationView>::empty());
        assert(filesystem.deep_view() =~= Seq::<ResolvedFsView>::empty());
        assert(fs_fold(g, ordv, 0) =~= filesystem.deep_view() + fs_fold(g, ordv, 0));
    }
    let mut oi: usize = 0;
    while oi < ord.len()
        invariant
            g == dependency_graph@,
            g.edges == dependency_graph.edges.deep_view(),
            g.nodes == dependency_graph.nodes.deep_view(),
            edges_ok(g),
            aliases_unique(g),
            0 <= g.root < g.nodes.len(),
            ordv == ord@,
            topo_pinned(g, ordv),
            oi <= ordv.len(),
            match entrypoint {
                Some(e) => spec_entrypoint(g, ordv) == Some(e@),
                None => g.nodes[g.root].pkg.entrypoint is None && spec_entrypoint(g, ordv)
                    == entry_fold(g, ordv, oi as int),
            },
            cmds_fold(g, ordv, 0, Seq::<ItemLocationView>::empty()) == cmds_fold(
                g,
                ordv,
                oi as int,
                commands.deep_view(),
            ),
            fs_fold(g, ordv, 0) == filesystem.deep_view() + fs_fold(g, ordv, oi as int),
            forall|j: int, mi: int|
                #![trigger g.nodes[ordv[j] as int].pkg.filesystem[mi]]
                0 <= j < oi && 0 <= mi < g.nodes[ordv[j] as int].pkg.filesystem.len()
                    ==> match g.nodes[ordv[j] as int].pkg.filesystem[mi].dependency_name {
                    None => true,
                    Some(a) => edge_with_alias(g, ordv[j] as int, a),
                },
        decreases ord.len() - oi,
    {
        let u = ord[oi];
        proof {
            assert((u as int) < g.nodes.len());
            assert(g.nodes[u as int] == dependency_graph.nodes@[u as int]@);
        }
        // Entrypoint inheritance.
        if entrypoint.is_none() {
            match &dependency_graph.nodes[u].pkg.entrypoint {
                Some(e) => {
                    entrypoint = Some(e.clone());
                },
                None => {},
            }
        }
        // Commands: first declaration of a name wins.
        let ncmds = dependency_graph.nodes[u].pkg.commands.len();
        let mut ci: usize = 0;
        while ci < ncmds
            invariant
                g == dependency_graph@,
                g.nodes == dependency_graph.nodes.deep_view(),
                (u as int) < g.nodes.len(),
                ncmds as int == g.nodes[u as int].pkg.commands.len(),
                ci <= ncmds,
                cmds_fold(g, ordv, 0, Seq::<ItemLocationView>::empty()) == cmds_fold(
                    g,
                    ordv,
                    oi + 1,
                    add_node_cmds(g, u as int, ci as int, commands.deep_view()),
                ),
            decreases ncmds - ci,
        {
            proof {
                assert(g.nodes[u as int] == dependency_graph.nodes@[u as int]@);
                assert(g.nodes[u as int].pkg.commands[ci as int] == dependency_graph.nodes@[
                u as int].pkg.commands@[ci as int]@);
            }
            let cname = dependency_graph.nodes[u].pkg.commands[ci].name.clone();
            let ghost cv = cname@;
            let ghost accv = commands.deep_view();
            if !commands_have_name(&commands, cname.as_str()) {
                let loc = ItemLocation {
                    name: cname,
                    package: dependency_graph.nodes[u].id.clone(),
                };
                let ghost lv = loc@;
                let ghost prevc = commands@;
                commands.push(loc);
                proof {
                    assert(commands@[commands@.len() - 1]@ == lv);
                    assert forall|y: int|
                        0 <= y < commands.deep_view().len() implies #[trigger] commands.deep_view()[y]
                        == (if y < accv.len() {
                        accv[y]
                    } else {
                        lv
                    }) by {
                        if y < accv.len() {
                            assert(commands@[y] == prevc[y]);
                            assert(commands.deep_view()[y] == commands@[y].deep_view());
                            assert(accv[y] == prevc[y].deep_view());
                        } else {
                            assert(commands.deep_view()[y] == commands@[y].deep_view());
                        }
                    }
                    assert(lv == ItemLocationView { name: cv, package: g.nodes[u as int].id });
                    assert(commands.deep_view() =~= accv.push(
                        ItemLocationView { name: cv, package: g.nodes[u as int].id },
                    ));
                    assert(add_node_cmds(g, u as int, ci as int, accv) == add_node_cmds(
                        g,
                        u as int,
                        ci + 1,
                        commands.deep_view(),
                    ));
                }
            } else {
                proof {
                    assert(add_node_cmds(g, u as int, ci as int, commands.deep_view())
                        == add_node_cmds(g, u as int, ci + 1, commands.deep_view()));
                }
            }
            ci = ci + 1;
        }
        // Filesystem mappings of this node.
        let nmaps = dependency_graph.nodes[u].pkg.filesystem.len();
        let ghost basefs = filesystem.deep_view();
        let mut mi: usize = 0;
        while mi < nmaps
            invariant
                g == dependency_graph@,
                g.nodes == dependency_graph.nodes.deep_view(),
                g.edges == dependency_graph.edges.deep_view(),
                edges_ok(g),
                aliases_unique(g),
                (u as int) < g.nodes.len(),
                nmaps as int == g.nodes[u as int].pkg.filesystem.len(),
                mi <= nmaps,
                filesystem.deep_view() == basefs + node_mappings(g, u as int).subrange(
                    0,
                    mi as int,
                ),
                forall|m2: int|
                    #![trigger g.nodes[u as int].pkg.filesystem[m2]]
                    0 <= m2 < mi ==> match g.nodes[u as int].pkg.filesystem[
                    m2].dependency_name {
                        None => true,
                        Some(a) => edge_with_alias(g, u as int, a),
                    },
            decreases nmaps - mi,
        {
            proof {
                assert(g.nodes[u as int] == dependency_graph.nodes@[u as int]@);
                assert(g.nodes[u as int].pkg.filesystem[mi as int] == dependency_graph.nodes@[
                u as int].pkg.filesystem@[mi as int]@);
            }
            let ghost mv = g.nodes[(u as int)].pkg.filesystem[mi as int];
            let package: PackageId = match &dependency_graph.nodes[u].pkg.filesystem[
                mi].dependency_name {
                None => dependency_graph.nodes[u].id.clone(),
                Some(name) => {
                    match find_edge_target(dependency_graph, u, name.as_str()) {
                        Some(t) => {
                            proof {
                                assert(g.nodes[t as int] == dependency_graph.nodes@[
                                t as int]@);
                            }
                            dependency_graph.nodes[t].id.clone()
                        },
                        None => {
                            proof {
                                assert(!mappings_resolvable(g));
                            }
                            return Err(ResolveError::UnknownDependencyAlias {
                                package: dependency_graph.nodes[u].id.clone(),
                                alias: name.clone(),
                            });
                        },
                    }
                },
            };
            proof {
                assert(package@ == fs_map_package(g, (u as int), mv));
            }
            let rm = ResolvedFileSystemMapping {
                mount_path: dependency_graph.nodes[u].pkg.filesystem[mi].mount_path.clone(),
                original_path: dependency_graph.nodes[u].pkg.filesystem[
                    mi].original_path.clone(),
                volume_name: dependency_graph.nodes[u].pkg.filesystem[mi].volume_name.clone(),
                package,
            };
            let ghost rmv = rm@;
            let ghost prevf = filesystem@;
            let ghost prevfd = filesystem.deep_view();
            filesystem.push(rm);
            mi = mi + 1;
            proof {
                assert(filesystem@[filesystem@.len() - 1]@ == rmv);
                assert(rmv == resolved_mapping(g, (u as int), mv));
                assert(node_mappings(g, (u as int))[mi - 1] == resolved_mapping(g, (u as int), mv));
                assert forall|y: int|
                    0 <= y < filesystem.deep_view().len() implies #[trigger] filesystem.deep_view()[y]
                    == (if y < prevfd.len() {
                    prevfd[y]
                } else {
                    rmv
                }) by {
                    if y < prevfd.len() {
                        assert(filesystem@[y] == prevf[y]);
                        assert(filesystem.deep_view()[y] == filesystem@[y].deep_view());
                        assert(prevfd[y] == prevf[y].deep_view());
                    } else {
                        assert(filesystem.deep_view()[y] == filesystem@[y].deep_view());
                    }
                }
                let nm = node_mappings(g, (u as int));
                assert(nm.len() == g.nodes[u as int].pkg.filesystem.len());
                assert(prevfd.len() == prevf.len());
                assert(filesystem@.len() == prevf.len() + 1);
                assert(filesystem.deep_view().len() == filesystem@.len());
                assert(prevfd == basefs + nm.subrange(0, mi - 1));
                assert(0 <= mi - 1 <= nm.len());
                assert(nm.subrange(0, mi - 1).len() == mi - 1);
                assert(filesystem.deep_view().len() == basefs.len() + mi);
                assert forall|y: int|
                    0 <= y < filesystem.deep_view().len() implies filesystem.deep_view()[y] == (
                basefs + nm.subrange(0, mi as int))[y] by {
                    if y < basefs.len() {
                        assert(filesystem.deep_view()[y] == prevfd[y]);
                        assert(prevfd[y] == (basefs + nm.subrange(0, mi - 1))[y]);
                    } else if y < prevfd.len() {
                        assert(filesystem.deep_view()[y] == prevfd[y]);
                        assert(prevfd[y] == (basefs + nm.subrange(0, mi - 1))[y]);
                        assert((basefs + nm.subrange(0, mi - 1))[y] == nm.subrange(
                            0,
                            mi - 1,
                        )[y - basefs.len()]);
                        assert(nm.subrange(0, mi - 1)[y - basefs.len()] == nm[y - basefs.len()]);
                        assert((basefs + nm.subrange(0, mi as int))[y] == nm.subrange(
                            0,
                            mi as int,
                        )[y - basefs.len()]);
                    } else {
                        assert(filesystem.deep_view()[y] == rmv);
                        assert(y == basefs.len() + mi - 1);
                        assert((basefs + nm.subrange(0, mi as int))[y] == nm.subrange(
                            0,
                            mi as int,
                        )[y - basefs.len()]);
                        assert(nm[mi - 1] == rmv);
                    }
                }
                assert(filesystem.deep_view() =~= basefs + nm.subrange(0, mi as int));
            }
        }
        proof {
            assert(node_mappings(g, (u as int)).subrange(0, nmaps as int) =~= node_mappings(g, (u as int)));
            assert(filesystem.deep_view() =~= basefs + node_mappings(g, (u as int)));
            assert(fs_fold(g, ordv, oi as int) == node_mappings(g, (u as int)) + fs_fold(
                g,
                ordv,
                oi + 1,
            ));
            assert(fs_fold(g, ordv, 0) =~= filesystem.deep_view() + fs_fold(g, ordv, oi + 1));
            assert(add_node_cmds(g, (u as int), ncmds as int, commands.deep_view())
                == commands.deep_view());
        }
        oi = oi + 1;
        proof {
            match entrypoint {
                Some(_) => {},
                None => {
                    assert(g.nodes[ordv[oi - 1] as int].pkg.entrypoint is None);
                    assert(entry_fold(g, ordv, oi - 1) == entry_fold(g, ordv, oi as int));
                },
            }
        }
    }
    proof {
        // Every node occurs in the order, so every mapping was checked.
        assert forall|u2: int, mi2: int|
            #![trigger g.nodes[u2].pkg.filesystem[mi2]]
            0 <= u2 < g.nodes.len() && 0 <= mi2 < g.nodes[u2].pkg.filesystem.len()
            implies match g.nodes[u2].pkg.filesystem[mi2].dependency_name {
            None => true,
            Some(a) => edge_with_alias(g, u2, a),
        } by {
            crate::graph::lemma_distinct_full(ordv, g.nodes.len() as int, u2);
            let j = choose|j: int| 0 <= j < ordv.len() && (#[trigger] ordv[j]) as int == u2;
            assert(g.nodes[ordv[j] as int].pkg.filesystem[mi2]
                == g.nodes[u2].pkg.filesystem[mi2]);
        }
        assert(cmds_fold(g, ordv, ordv.len() as int, commands.deep_view())
            == commands.deep_view());
        assert(fs_fold(g, ordv, ordv.len() as int) =~= Seq::<ResolvedFsView>::empty());
        assert(fs_fold(g, ordv, 0) =~= filesystem.deep_view());
    }
    let root_package = dependency_graph.root_info().id();
    // Mount order: deeper dependencies first, the root last.
    let mut reversed: Vec<ResolvedFileSystemMapping> = Vec::new();
    let mut ri: usize = filesystem.len();
    while ri > 0
        invariant
            ri <= filesystem.deep_view().len(),
            reversed.deep_view().len() == filesystem.deep_view().len() - ri,
            forall|y: int|
                0 <= y < reversed.deep_view().len() ==> #[trigger] reversed.deep_view()[y]
                    == filesystem.deep_view()[filesystem.deep_view().len() - 1 - y],
        decreases ri,
    {
        ri = ri - 1;
        proof {
            assert(filesystem.deep_view()[ri as int] == filesystem@[ri as int]@);
        }
        let ghost prevr = reversed@;
        let ghost prevrd = reversed.deep_view();
        let item = clone_resolved_mapping(&filesystem[ri]);
        let ghost iv = item@;
        reversed.push(item);
        proof {
            assert(reversed@[reversed@.len() - 1]@ == iv);
            assert forall|y: int|
                0 <= y < reversed.deep_view().len() implies #[trigger] reversed.deep_view()[y]
                == filesystem.deep_view()[filesystem.deep_view().len() - 1 - y] by {
                if y < prevrd.len() {
                    assert(reversed@[y] == prevr[y]);
                    assert(reversed.deep_view()[y] == reversed@[y].deep_view());
                    assert(prevrd[y] == prevr[y].deep_view());
                } else {
                    assert(reversed.deep_view()[y] == reversed@[y].deep_view());
                }
            }
        }
    }
    proof {
        assert(reversed.deep_view() =~= fs_fold(g, ordv, 0).reverse());
    }
    let p = ResolvedPackage { root_package, commands, entrypoint, filesystem: reversed };
    proof {
        assert(topo_pinned(g, the_topo(g))) by {
            assert(topo_pinned(g, ordv));
        }
        lemma_topo_unique(g, ordv, the_topo(g));
        assert(p@.commands =~= cmds_fold(g, the_topo(g), 0, Seq::<ItemLocationView>::empty()));
        assert(p@.filesystem =~= fs_fold(g, the_topo(g), 0).reverse());
    }
    Ok(p)
}

/// A copy of one resolved mapping.
fn clone_resolved_mapping(m: &ResolvedFileSystemMapping) -> (r: ResolvedFileSystemMapping)
    ensures
        r@ == m@,
{
    let r = ResolvedFileSystemMapping {
        mount_path: m.mount_path.clone(),
        original_path: m.original_path.clone(),
        volume_name: m.volume_name.clone(),
        package: m.package.clone(),
    };
    proof {
        assert(r@ =~= m@);
    }
    r
}

} // verus!
// The module ends: the public entry point.

verus! {

/// Discovers the dependency graph of the root package and checks it:
/// one exact version per package name, no dependency cycle.
pub fn resolve_dependency_graph<S: Source>(
    root_id: &PackageId,
    root: &PackageInfo,
    source: &S,
) -> (r: Result<DependencyGraph, ResolveError>)
    ensures
        match r {
            Ok(g) => {
                &&& graph_wf(g@)
                &&& names_distinct(g@)
                &&& !has_cycle(g@)
                &&& g@.nodes[0].id == root_id@
                &&& g@.nodes[0].pkg == root@
                &&& g@.nodes[0].dist is None
                &&& forall|j: int|
                    1 <= j < g@.nodes.len() ==> (#[trigger] g@.nodes[j]).dist is Some
                &&& forall|u: int| 0 <= u < g@.nodes.len() ==> deps_edged(g@, u)
                &&& edges_from_deps(g@)
                &&& edges_in_declaration_order(g@)
                &&& forall|u: int|
                    0 <= u < g@.nodes.len() ==> aliases_distinct((#[trigger] g@.nodes[u]).pkg)
                &&& root@.dependencies.len() == 0 ==> g@.nodes.len() == 1 && g@.edges.len()
                    == 0
            },
            Err(e) => resolution_error_shape(e) && !(e is UnknownDependencyAlias),
        },
        root@.dependencies.len() == 0 ==> r is Ok,
        !aliases_distinct(root@) ==> r matches Err(ResolveError::DuplicateAliases { .. }),
{
    let discovered = match discover_dependencies(root_id, root, source) {
        Ok(d) => d,
        Err(e) => {
            return Err(e);
        },
    };
    match check_for_duplicate_versions(&discovered.graph.nodes) {
        Ok(_) => {},
        Err(e) => {
            proof {
                let nv = discovered.graph.nodes.deep_view();
                if root@.dependencies.len() == 0 {
                    // A single root node cannot carry two versions.
                    assert(discovered.graph@.nodes.len() == 1);
                    assert(nv.len() == 1);
                    match &e {
                        ResolveError::DuplicateVersions { package_name, versions } => {
                            assert(offending_name(nv, package_name@));
                            let i = choose|i: int|
                                0 <= i < nv.len() && (#[trigger] nv[i]).id.name
                                    == package_name@ && offending_at(nv, i);
                            let j = choose|j: int|
                                0 <= j < nv.len() && (#[trigger] nv[j]).id.name == nv[
                                i].id.name && nv[j].id.version != nv[i].id.version;
                            assert(false);
                        },
                        _ => {},
                    }
                }
                match &e {
                    ResolveError::DuplicateVersions { package_name, versions } => {
                        // Two different versions of the name exist, so the
                        // reported list has at least two entries.
                        let vd = versions.deep_view();
                        assert(offending_name(nv, package_name@));
                        let i = choose|i: int|
                            0 <= i < nv.len() && (#[trigger] nv[i]).id.name == package_name@
                                && offending_at(nv, i);
                        let j = choose|j: int|
                            0 <= j < nv.len() && (#[trigger] nv[j]).id.name == nv[i].id.name
                                && nv[j].id.version != nv[i].id.version;
                        assert(vseq_contains(vd, nv[i].id.version));
                        assert(vseq_contains(vd, nv[j].id.version));
                        let a = choose|a: int|
                            0 <= a < vd.len() && #[trigger] vd[a] == nv[i].id.version;
                        let b = choose|b: int|
                            0 <= b < vd.len() && #[trigger] vd[b] == nv[j].id.version;
                        assert(a != b);
                        assert(vd.len() >= 2);
                    },
                    _ => {},
                }
            }
            return Err(e);
        },
    }
    proof {
        let g = discovered.graph@;
        assert(g.nodes == discovered.graph.nodes.deep_view());
        lemma_topo_pinned_acyclic(g, discovered.topo_order@);
        assert(names_distinct(g)) by {
            assert forall|i: int, j: int|
                0 <= i < j < g.nodes.len() implies (#[trigger] g.nodes[i]).id.name != (
            #[trigger] g.nodes[j]).id.name by {
                if g.nodes[i].id.name == g.nodes[j].id.name {
                    assert(g.nodes[i].id.version == g.nodes[j].id.version);
                    assert(g.nodes[i].id =~= g.nodes[j].id);
                }
            }
        }
    }
    Ok(discovered.graph)
}

/// Resolves the dependency closure of the root package: discovers the
/// graph over the oracle, enforces one version per name and
/// acyclicity, and folds the nodes into the runtime view.
pub fn resolve<S: Source>(root_id: &PackageId, root: &PackageInfo, source: &S) -> (r: Result<
    Resolution,
    ResolveError,
>)
    ensures
        match r {
            Ok(res) => {
                let g = res.graph@;
                &&& graph_wf(g)
                &&& names_distinct(g)
                &&& !has_cycle(g)
                &&& forall|v: int| 0 <= v < g.nodes.len() ==> reachable(g, g.root, v)
                &&& g.nodes[0].id == root_id@
                &&& g.nodes[0].pkg == root@
                &&& g.nodes[0].dist is None
                &&& forall|j: int|
                    1 <= j < g.nodes.len() ==> (#[trigger] g.nodes[j]).dist is Some
                &&& forall|u: int| 0 <= u < g.nodes.len() ==> deps_edged(g, u)
                &&& edges_from_deps(g)
                &&& mappings_resolvable(g)
                &&& edges_in_declaration_order(g)
                &&& forall|u: int|
                    0 <= u < g.nodes.len() ==> aliases_distinct((#[trigger] g.nodes[u]).pkg)
                &&& is_resolved_view(g, res.package@)
            },
            Err(e) => resolution_error_shape(e),
        },
        (root@.dependencies.len() == 0 && (forall|mi: int|
            0 <= mi < root@.filesystem.len() ==> (#[trigger] root@.filesystem[
            mi]).dependency_name is None)) ==> r is Ok,
        !aliases_distinct(root@) ==> r matches Err(ResolveError::DuplicateAliases { .. }),
{
    let graph = match resolve_dependency_graph(root_id, root, source) {
        Ok(g) => g,
        Err(e) => {
            return Err(e);
        },
    };
    let package = match resolve_package(&graph) {
        Ok(p) => p,
        Err(e) => {
            proof {
                // A graph whose mappings name only declared aliases never
                // takes this exit; in particular a dependency-free root
                // with self-owned mappings resolves.
                if root@.dependencies.len() == 0 && (forall|mi: int|
                    0 <= mi < root@.filesystem.len() ==> (#[trigger] root@.filesystem[
                    mi]).dependency_name is None) {
                    assert(graph@.nodes.len() == 1);
                    assert(mappings_resolvable(graph@)) by {
                        assert forall|u: int, mi: int|
                            #![trigger graph@.nodes[u].pkg.filesystem[mi]]
                            0 <= u < graph@.nodes.len() && 0 <= mi < graph@.nodes[
                            u].pkg.filesystem.len() implies match graph@.nodes[
                        u].pkg.filesystem[mi].dependency_name {
                            None => true,
                            Some(a) => edge_with_alias(graph@, u, a),
                        } by {
                            assert(u == 0);
                            assert(graph@.nodes[0].pkg == root@);
                            assert(root@.filesystem[mi].dependency_name is None);
                        }
                    }
                    assert(false);
                }
                if !aliases_distinct(root@) {
                    assert(false);
                }
            }
            return Err(e);
        },
    };
    proof {
        assert forall|v: int|
            0 <= v < graph@.nodes.len() implies reachable(graph@, graph@.root, v) by {
            lemma_all_reachable(graph@, v);
        }
    }
    Ok(Resolution { graph, package })
}

} // verus!
// The module continues: the laws of the fold.

verus! {

/// Where the mappings of the node at order position `j` start inside
/// the accumulated filesystem list.
pub open spec fn fold_offset(g: GraphView, ord: Seq<usize>, j: int) -> int {
    fs_fold(g, ord, 0).len() - fs_fold(g, ord, j).len()
}

/// The mappings of the node at position `j` sit contiguously at their
/// offset inside the accumulated list.
proof fn lemma_fold_at(g: GraphView, ord: Seq<usize>, i: int, j: int, mi: int)
    requires
        0 <= i <= j < ord.len(),
        0 <= mi < node_mappings(g, ord[j] as int).len(),
    ensures
        ({
            let off = fs_fold(g, ord, i).len() - fs_fold(g, ord, j).len();
            &&& 0 <= off
            &&& off + mi < fs_fold(g, ord, i).len()
            &&& fs_fold(g, ord, i)[off + mi] == node_mappings(g, ord[j] as int)[mi]
            &&& fs_fold(g, ord, j).len() >= node_mappings(g, ord[j] as int).len()
        }),
    decreases j - i,
{
    if i == j {
        assert(fs_fold(g, ord, j) == node_mappings(g, ord[j] as int) + fs_fold(g, ord, j + 1));
        assert(fs_fold(g, ord, j)[mi] == node_mappings(g, ord[j] as int)[mi]);
    } else {
        lemma_fold_at(g, ord, i + 1, j, mi);
        assert(fs_fold(g, ord, i) == node_mappings(g, ord[i] as int) + fs_fold(g, ord, i + 1));
        let off1 = fs_fold(g, ord, i + 1).len() - fs_fold(g, ord, j).len();
        let off = fs_fold(g, ord, i).len() - fs_fold(g, ord, j).len();
        assert(off == off1 + node_mappings(g, ord[i] as int).len());
        assert(fs_fold(g, ord, i)[off + mi] == fs_fold(g, ord, i + 1)[off1 + mi]);
    }
}

/// The filesystem layering law: when node `a` is a proper ancestor of
/// node `b`, any overlay `a` contributes stands at a strictly higher
/// index of the resolved (reversed) filesystem list than any overlay
/// `b` contributes, so nearer-to-root overlays mount later and win.
pub proof fn lemma_filesystem_layering(
    g: GraphView,
    ord: Seq<usize>,
    a: int,
    b: int,
    ma: int,
    mb: int,
)
    requires
        edges_ok(g),
        topo_pinned(g, ord),
        0 <= a < g.nodes.len(),
        0 <= b < g.nodes.len(),
        a != b,
        reachable(g, a, b),
        0 <= ma < node_mappings(g, a).len(),
        0 <= mb < node_mappings(g, b).len(),
    ensures
        ({
            let flat = fs_fold(g, ord, 0);
            let ia = fold_offset(g, ord, pos_in(ord, a)) + ma;
            let ib = fold_offset(g, ord, pos_in(ord, b)) + mb;
            &&& 0 <= ia < flat.len()
            &&& 0 <= ib < flat.len()
            &&& flat[ia] == node_mappings(g, a)[ma]
            &&& flat[ib] == node_mappings(g, b)[mb]
            &&& ia < ib
            &&& flat.reverse()[flat.len() - 1 - ia] == node_mappings(g, a)[ma]
            &&& flat.reverse()[flat.len() - 1 - ib] == node_mappings(g, b)[mb]
            &&& flat.len() - 1 - ia > flat.len() - 1 - ib
        }),
{
    let w = choose|w: Seq<int>| is_walk(g, w) && w[0] == a && w[w.len() - 1] == b;
    crate::graph::lemma_walk_pos(g, ord, w, w.len() - 1);
    crate::graph::lemma_walk_pos(g, ord, w, 0);
    let pa = pos_in(ord, a);
    let pb = pos_in(ord, b);
    assert(w.len() >= 2) by {
        if w.len() == 1 {
            assert(w[0] == a && w[0] == b);
        }
    }
    assert(pa < pb);
    lemma_fold_at(g, ord, 0, pa, ma);
    lemma_fold_at(g, ord, 0, pb, mb);
    assert(ord[pa] as int == a);
    assert(ord[pb] as int == b);
    // The offset grows with the position.
    lemma_fold_len_mono(g, ord, pa, pb);
    let flat = fs_fold(g, ord, 0);
    let ia = fold_offset(g, ord, pa) + ma;
    let ib = fold_offset(g, ord, pb) + mb;
    assert(ia < ib) by {
        assert(fs_fold(g, ord, pa).len() >= fs_fold(g, ord, pb).len() + node_mappings(
            g,
            a,
        ).len());
    }
    assert(flat.reverse()[flat.len() - 1 - ia] == flat[ia]);
    assert(flat.reverse()[flat.len() - 1 - ib] == flat[ib]);
}

/// Between two order positions the remaining fold shrinks by at least
/// the earlier node's own mappings.
proof fn lemma_fold_len_mono(g: GraphView, ord: Seq<usize>, j1: int, j2: int)
    requires
        0 <= j1 < j2 <= ord.len(),
    ensures
        fs_fold(g, ord, j1).len() >= fs_fold(g, ord, j2).len() + node_mappings(
            g,
            ord[j1] as int,
        ).len(),
    decreases j2 - j1,
{
    assert(fs_fold(g, ord, j1) == node_mappings(g, ord[j1] as int) + fs_fold(g, ord, j1 + 1));
    if j1 + 1 < j2 {
        lemma_fold_len_mono(g, ord, j1 + 1, j2);
    }
}

} // verus!
// The module continues: the entrypoint law.

verus! {

/// Node `u` declares a command of this name.
pub open spec fn declares_command(g: GraphView, u: int, name: Seq<char>) -> bool {
    exists|ci: int|
        0 <= ci < g.nodes[u].pkg.commands.len() && #[trigger] g.nodes[u].pkg.commands[ci]
            == name
}

/// Every package that declares an entrypoint also declares it among
/// its own commands.
pub open spec fn entrypoints_are_commands(g: GraphView) -> bool {
    forall|u: int|
        0 <= u < g.nodes.len() ==> match (#[trigger] g.nodes[u]).pkg.entrypoint {
            Some(e) => declares_command(g, u, e),
            None => true,
        }
}

/// The per-node fold never loses a name the accumulator already holds.
proof fn lemma_add_cmds_mono(
    g: GraphView,
    u: int,
    ci: int,
    acc: Seq<ItemLocationView>,
    name: Seq<char>,
)
    requires
        cmd_has_name(acc, name),
    ensures
        cmd_has_name(add_node_cmds(g, u, ci, acc), name),
    decreases g.nodes[u].pkg.commands.len() - ci,
{
    if 0 <= ci < g.nodes[u].pkg.commands.len() {
        let cname = g.nodes[u].pkg.commands[ci];
        let acc2 = if cmd_has_name(acc, cname) {
            acc
        } else {
            acc.push(ItemLocationView { name: cname, package: g.nodes[u].id })
        };
        assert(cmd_has_name(acc2, name)) by {
            let x = choose|x: int| 0 <= x < acc.len() && (#[trigger] acc[x]).name == name;
            assert(acc2[x].name == name);
        }
        lemma_add_cmds_mono(g, u, ci + 1, acc2, name);
    }
}

/// The per-node fold picks up every command the node declares from the
/// given position on.
proof fn lemma_add_cmds_own(g: GraphView, u: int, ci: int, acc: Seq<ItemLocationView>, cj: int)
    requires
        0 <= ci <= cj < g.nodes[u].pkg.commands.len(),
    ensures
        cmd_has_name(add_node_cmds(g, u, ci, acc), g.nodes[u].pkg.commands[cj]),
    decreases g.nodes[u].pkg.commands.len() - ci,
{
    let cname = g.nodes[u].pkg.commands[ci];
    let acc2 = if cmd_has_name(acc, cname) {
        acc
    } else {
        acc.push(ItemLocationView { name: cname, package: g.nodes[u].id })
    };
    if cj == ci {
        assert(cmd_has_name(acc2, cname)) by {
            if !cmd_has_name(acc, cname) {
                assert(acc2[acc2.len() - 1].name == cname);
            }
        }
        if ci + 1 < g.nodes[u].pkg.commands.len() {
            lemma_add_cmds_mono(g, u, ci + 1, acc2, cname);
        }
    } else {
        lemma_add_cmds_own(g, u, ci + 1, acc2, cj);
    }
}

/// The whole fold never loses a name the accumulator already holds.
proof fn lemma_cmds_fold_mono(
    g: GraphView,
    ord: Seq<usize>,
    i: int,
    acc: Seq<ItemLocationView>,
    name: Seq<char>,
)
    requires
        cmd_has_name(acc, name),
    ensures
        cmd_has_name(cmds_fold(g, ord, i, acc), name),
    decreases ord.len() - i,
{
    if 0 <= i < ord.len() {
        lemma_add_cmds_mono(g, ord[i] as int, 0, acc, name);
        lemma_cmds_fold_mono(g, ord, i + 1, add_node_cmds(g, ord[i] as int, 0, acc), name);
    }
}

/// The whole fold holds every command declared by any node from the
/// given position on.
proof fn lemma_cmds_fold_covers(
    g: GraphView,
    ord: Seq<usize>,
    i: int,
    acc: Seq<ItemLocationView>,
    j: int,
    cj: int,
)
    requires
        0 <= i <= j < ord.len(),
        0 <= cj < g.nodes[ord[j] as int].pkg.commands.len(),
    ensures
        cmd_has_name(cmds_fold(g, ord, i, acc), g.nodes[ord[j] as int].pkg.commands[cj]),
    decreases j - i,
{
    if i == j {
        lemma_add_cmds_own(g, ord[i] as int, 0, acc, cj);
        lemma_cmds_fold_mono(
            g,
            ord,
            i + 1,
            add_node_cmds(g, ord[i] as int, 0, acc),
            g.nodes[ord[j] as int].pkg.commands[cj],
        );
    } else {
        lemma_cmds_fold_covers(g, ord, i + 1, add_node_cmds(g, ord[i] as int, 0, acc), j, cj);
    }
}

/// A found entrypoint names a node from the given position on.
proof fn lemma_entry_fold_witness(g: GraphView, ord: Seq<usize>, i: int, e: Seq<char>)
    requires
        entry_fold(g, ord, i) == Some(e),
        0 <= i,
    ensures
        exists|j: int|
            i <= j < ord.len() && (#[trigger] g.nodes[ord[j] as int].pkg.entrypoint) == Some(e),
    decreases ord.len() - i,
{
    if i < ord.len() {
        match g.nodes[ord[i] as int].pkg.entrypoint {
            Some(e2) => {
                assert(g.nodes[ord[i] as int].pkg.entrypoint == Some(e));
            },
            None => {
                lemma_entry_fold_witness(g, ord, i + 1, e);
            },
        }
    }
}

/// The entrypoint law: when every package that declares an entrypoint
/// also offers it as a command, the resolved entrypoint names a key of
/// the resolved command map.
pub proof fn lemma_entrypoint_has_command(g: GraphView, ord: Seq<usize>)
    requires
        topo_pinned(g, ord),
        0 <= g.root < g.nodes.len(),
        entrypoints_are_commands(g),
    ensures
        match spec_entrypoint(g, ord) {
            Some(e) => cmd_has_name(
                cmds_fold(g, ord, 0, Seq::<ItemLocationView>::empty()),
                e,
            ),
            None => true,
        },
{
    match spec_entrypoint(g, ord) {
        Some(e) => {
            match g.nodes[g.root].pkg.entrypoint {
                Some(e0) => {
                    assert(e0 == e);
                    assert(declares_command(g, g.root, e));
                    crate::graph::lemma_distinct_full(ord, g.nodes.len() as int, g.root);
                    let j = choose|j: int|
                        0 <= j < ord.len() && (#[trigger] ord[j]) as int == g.root;
                    let cj = choose|cj: int|
                        0 <= cj < g.nodes[g.root].pkg.commands.len()
                            && #[trigger] g.nodes[g.root].pkg.commands[cj] == e;
                    lemma_cmds_fold_covers(
                        g,
                        ord,
                        0,
                        Seq::<ItemLocationView>::empty(),
                        j,
                        cj,
                    );
                },
                None => {
                    lemma_entry_fold_witness(g, ord, 0, e);
                    let j = choose|j: int|
                        0 <= j < ord.len() && (#[trigger] g.nodes[ord[j] as int].pkg.entrypoint)
                            == Some(e);
                    assert((ord[j] as int) < g.nodes.len());
                    assert(declares_command(g, ord[j] as int, e));
                    let cj = choose|cj: int|
                        0 <= cj < g.nodes[ord[j] as int].pkg.commands.len()
                            && #[trigger] g.nodes[ord[j] as int].pkg.commands[cj] == e;
                    lemma_cmds_fold_covers(
                        g,
                        ord,
                        0,
                        Seq::<ItemLocationView>::empty(),
                        j,
                        cj,
                    );
                },
            }
        },
        None => {},
    }
}

} // verus!
// The module ends: the command precedence law.

verus! {

/// No node strictly before order position `j` declares this name.
pub open spec fn no_earlier_declarer(
    g: GraphView,
    ord: Seq<usize>,
    j: int,
    name: Seq<char>,
) -> bool {
    forall|j2: int| 0 <= j2 < j ==> !#[trigger] declares_command(g, ord[j2] as int, name)
}

/// The location names the earliest declarer, up to order position
/// `upto`, of its command name.
pub open spec fn winner_entry(
    g: GraphView,
    ord: Seq<usize>,
    upto: int,
    loc: ItemLocationView,
) -> bool {
    exists|j: int|
        0 <= j < upto && #[trigger] declares_command(g, ord[j] as int, loc.name)
            && loc.package == g.nodes[ord[j] as int].id && no_earlier_declarer(
            g,
            ord,
            j,
            loc.name,
        )
}

/// Every accumulated location is a winner entry.
pub open spec fn winner_entries(
    g: GraphView,
    ord: Seq<usize>,
    upto: int,
    acc: Seq<ItemLocationView>,
) -> bool {
    forall|x: int| 0 <= x < acc.len() ==> winner_entry(g, ord, upto, #[trigger] acc[x])
}

/// Every command declared before order position `upto` is in the
/// accumulator.
pub open spec fn names_complete(
    g: GraphView,
    ord: Seq<usize>,
    upto: int,
    acc: Seq<ItemLocationView>,
) -> bool {
    forall|j: int, cj: int|
        #![trigger g.nodes[ord[j] as int].pkg.commands[cj]]
        0 <= j < upto && 0 <= cj < g.nodes[ord[j] as int].pkg.commands.len() ==> cmd_has_name(
            acc,
            g.nodes[ord[j] as int].pkg.commands[cj],
        )
}

/// Folding one node keeps all entries winners and completes its names.
proof fn lemma_add_winners(
    g: GraphView,
    ord: Seq<usize>,
    i: int,
    ci: int,
    acc: Seq<ItemLocationView>,
)
    requires
        0 <= i < ord.len(),
        0 <= ci,
        winner_entries(g, ord, i + 1, acc),
        names_complete(g, ord, i, acc),
        forall|cj: int|
            0 <= cj < ci && cj < g.nodes[ord[i] as int].pkg.commands.len() ==> cmd_has_name(
                acc,
                #[trigger] g.nodes[ord[i] as int].pkg.commands[cj],
            ),
    ensures
        winner_entries(g, ord, i + 1, add_node_cmds(g, ord[i] as int, ci, acc)),
        names_complete(g, ord, i, add_node_cmds(g, ord[i] as int, ci, acc)),
        forall|cj: int|
            0 <= cj < g.nodes[ord[i] as int].pkg.commands.len() ==> cmd_has_name(
                add_node_cmds(g, ord[i] as int, ci, acc),
                #[trigger] g.nodes[ord[i] as int].pkg.commands[cj],
            ),
    decreases g.nodes[ord[i] as int].pkg.commands.len() - ci,
{
    let u = ord[i] as int;
    if ci >= g.nodes[u].pkg.commands.len() {
        assert forall|cj: int|
            0 <= cj < g.nodes[u].pkg.commands.len() implies cmd_has_name(
            add_node_cmds(g, u, ci, acc),
            #[trigger] g.nodes[u].pkg.commands[cj],
        ) by {
            assert(cmd_has_name(acc, g.nodes[u].pkg.commands[cj]));
        }
    } else {
        let cname = g.nodes[u].pkg.commands[ci];
        let acc2 = if cmd_has_name(acc, cname) {
            acc
        } else {
            acc.push(ItemLocationView { name: cname, package: g.nodes[u].id })
        };
        assert(winner_entries(g, ord, i + 1, acc2)) by {
            if !cmd_has_name(acc, cname) {
                assert forall|x: int|
                    0 <= x < acc2.len() implies winner_entry(g, ord, i + 1, #[trigger] acc2[x])
                    by {
                    if x < acc.len() {
                        assert(acc2[x] == acc[x]);
                    } else {
                        assert(acc2[x].name == cname);
                        assert(declares_command(g, u, cname));
                        assert(no_earlier_declarer(g, ord, i, cname)) by {
                            assert forall|j2: int|
                                0 <= j2 < i implies !declares_command(
                                g,
                                ord[j2] as int,
                                cname,
                            ) by {
                                if declares_command(g, ord[j2] as int, cname) {
                                    let cj2 = choose|cj2: int|
                                        0 <= cj2 < g.nodes[ord[j2] as int].pkg.commands.len()
                                            && #[trigger] g.nodes[ord[
                                        j2] as int].pkg.commands[cj2] == cname;
                                    assert(cmd_has_name(acc, cname));
                                }
                            }
                        }
                    }
                }
            }
        }
        assert(names_complete(g, ord, i, acc2)) by {
            assert forall|j: int, cj: int|
                #![trigger g.nodes[ord[j] as int].pkg.commands[cj]]
                0 <= j < i && 0 <= cj < g.nodes[ord[j] as int].pkg.commands.len()
                implies cmd_has_name(acc2, g.nodes[ord[j] as int].pkg.commands[cj]) by {
                assert(cmd_has_name(acc, g.nodes[ord[j] as int].pkg.commands[cj]));
                let x = choose|x: int|
                    0 <= x < acc.len() && (#[trigger] acc[x]).name == g.nodes[ord[
                    j] as int].pkg.commands[cj];
                assert(acc2[x].name == g.nodes[ord[j] as int].pkg.commands[cj]);
            }
        }
        assert(forall|cj: int|
            0 <= cj < ci + 1 && cj < g.nodes[u].pkg.commands.len() ==> cmd_has_name(
                acc2,
                #[trigger] g.nodes[u].pkg.commands[cj],
            )) by {
            assert forall|cj: int|
                0 <= cj < ci + 1 && cj < g.nodes[u].pkg.commands.len() implies cmd_has_name(
                acc2,
                #[trigger] g.nodes[u].pkg.commands[cj],
            ) by {
                if cj < ci {
                    assert(cmd_has_name(acc, g.nodes[u].pkg.commands[cj]));
                    let x = choose|x: int|
                        0 <= x < acc.len() && (#[trigger] acc[x]).name == g.nodes[
                        u].pkg.commands[cj];
                    assert(acc2[x].name == g.nodes[u].pkg.commands[cj]);
                } else {
                    if !cmd_has_name(acc, cname) {
                        assert(acc2[acc2.len() - 1].name == cname);
                    } else {
                        let x = choose|x: int|
                            0 <= x < acc.len() && (#[trigger] acc[x]).name == cname;
                        assert(acc2[x].name == cname);
                    }
                }
            }
        }
        lemma_add_winners(g, ord, i, ci + 1, acc2);
    }
}

/// Folding the remaining nodes keeps all entries winners.
proof fn lemma_fold_winners(g: GraphView, ord: Seq<usize>, i: int, acc: Seq<ItemLocationView>)
    requires
        0 <= i <= ord.len(),
        winner_entries(g, ord, i, acc),
        names_complete(g, ord, i, acc),
    ensures
        winner_entries(g, ord, ord.len() as int, cmds_fold(g, ord, i, acc)),
    decreases ord.len() - i,
{
    if i < ord.len() {
        assert(winner_entries(g, ord, i + 1, acc)) by {
            assert forall|x: int|
                0 <= x < acc.len() implies winner_entry(g, ord, i + 1, #[trigger] acc[x]) by {
                assert(winner_entry(g, ord, i, acc[x]));
                let j = choose|j: int|
                    0 <= j < i && #[trigger] declares_command(g, ord[j] as int, acc[x].name)
                        && acc[x].package == g.nodes[ord[j] as int].id && no_earlier_declarer(
                        g,
                        ord,
                        j,
                        acc[x].name,
                    );
            }
        }
        lemma_add_winners(g, ord, i, 0, acc);
        let acc2 = add_node_cmds(g, ord[i] as int, 0, acc);
        assert(names_complete(g, ord, i + 1, acc2)) by {
            assert forall|j: int, cj: int|
                #![trigger g.nodes[ord[j] as int].pkg.commands[cj]]
                0 <= j < i + 1 && 0 <= cj < g.nodes[ord[j] as int].pkg.commands.len()
                implies cmd_has_name(acc2, g.nodes[ord[j] as int].pkg.commands[cj]) by {
                if j < i {
                    assert(cmd_has_name(acc2, g.nodes[ord[j] as int].pkg.commands[cj]));
                } else {
                    assert(cmd_has_name(acc2, g.nodes[ord[i] as int].pkg.commands[cj]));
                }
            }
        }
        lemma_fold_winners(g, ord, i + 1, acc2);
    } else {
        assert(i == ord.len());
    }
}

/// The command precedence law: every resolved command points at the
/// first node in topological order that declares its name, so a node
/// nearer the root shadows every later declaration.
pub proof fn lemma_commands_first_declarer_wins(g: GraphView, ord: Seq<usize>)
    ensures
        ({
            let r = cmds_fold(g, ord, 0, Seq::<ItemLocationView>::empty());
            forall|x: int|
                0 <= x < r.len() ==> winner_entry(g, ord, ord.len() as int, #[trigger] r[x])
        }),
{
    let acc = Seq::<ItemLocationView>::empty();
    assert(winner_entries(g, ord, 0, acc));
    assert(names_complete(g, ord, 0, acc));
    lemma_fold_winners(g, ord, 0, acc);
}

} // verus!
// Corollaries: every resolved reference names a node of the graph.

verus! {

/// Every resolved command's package is a node of the graph.
pub proof fn lemma_commands_name_nodes(g: GraphView, ord: Seq<usize>)
    requires
        topo_pinned(g, ord),
    ensures
        ({
            let r = cmds_fold(g, ord, 0, Seq::<ItemLocationView>::empty());
            forall|x: int|
                0 <= x < r.len() ==> exists|u: int|
                    0 <= u < g.nodes.len() && (#[trigger] r[x]).package == g.nodes[u].id
        }),
{
    lemma_commands_first_declarer_wins(g, ord);
    let r = cmds_fold(g, ord, 0, Seq::<ItemLocationView>::empty());
    assert forall|x: int|
        0 <= x < r.len() implies exists|u: int|
        0 <= u < g.nodes.len() && (#[trigger] r[x]).package == g.nodes[u].id by {
        assert(winner_entry(g, ord, ord.len() as int, r[x]));
        let j = choose|j: int|
            0 <= j < ord.len() && #[trigger] declares_command(g, ord[j] as int, r[x].name)
                && r[x].package == g.nodes[ord[j] as int].id && no_earlier_declarer(
                g,
                ord,
                j,
                r[x].name,
            );
        assert((ord[j] as int) < g.nodes.len());
        assert(r[x].package == g.nodes[ord[j] as int].id);
    }
}

/// Every accumulated overlay's package is a node of the graph.
proof fn lemma_fs_fold_nodes_from(g: GraphView, ord: Seq<usize>, i: int)
    requires
        edges_ok(g),
        topo_pinned(g, ord),
        mappings_resolvable(g),
        0 <= i,
    ensures
        ({
            let flat = fs_fold(g, ord, i);
            forall|ix: int|
                0 <= ix < flat.len() ==> exists|u: int|
                    0 <= u < g.nodes.len() && (#[trigger] flat[ix]).package == g.nodes[u].id
        }),
    decreases ord.len() - i,
{
    if i < ord.len() {
        lemma_fs_fold_nodes_from(g, ord, i + 1);
        let u = ord[i] as int;
        let nm = node_mappings(g, u);
        let flat = fs_fold(g, ord, i);
        assert(flat == nm + fs_fold(g, ord, i + 1));
        assert forall|ix: int|
            0 <= ix < flat.len() implies exists|u2: int|
            0 <= u2 < g.nodes.len() && (#[trigger] flat[ix]).package == g.nodes[u2].id by {
            if ix < nm.len() {
                assert(flat[ix] == nm[ix]);
                assert(nm[ix] == resolved_mapping(g, u, g.nodes[u].pkg.filesystem[ix]));
                let m = g.nodes[u].pkg.filesystem[ix];
                match m.dependency_name {
                    None => {
                        assert(flat[ix].package == g.nodes[u].id);
                    },
                    Some(a) => {
                        assert(edge_with_alias(g, u, a));
                        let k = choose|k: int|
                            0 <= k < g.edges.len() && (#[trigger] g.edges[k]).from == u
                                && g.edges[k].alias == a;
                        assert(flat[ix].package == g.nodes[g.edges[k].to].id);
                        assert(0 <= g.edges[k].to < g.nodes.len());
                    },
                }
            } else {
                let rest = fs_fold(g, ord, i + 1);
                assert(flat[ix] == rest[ix - nm.len()]);
            }
        }
    }
}

/// Every resolved overlay's package is a node of the graph, in the
/// mount-ordered list too.
pub proof fn lemma_filesystem_names_nodes(g: GraphView, ord: Seq<usize>)
    requires
        edges_ok(g),
        topo_pinned(g, ord),
        mappings_resolvable(g),
    ensures
        ({
            let fsr = fs_fold(g, ord, 0).reverse();
            forall|ix: int|
                0 <= ix < fsr.len() ==> exists|u: int|
                    0 <= u < g.nodes.len() && (#[trigger] fsr[ix]).package == g.nodes[u].id
        }),
{
    lemma_fs_fold_nodes_from(g, ord, 0);
    let flat = fs_fold(g, ord, 0);
    let fsr = flat.reverse();
    assert forall|ix: int|
        0 <= ix < fsr.len() implies exists|u: int|
        0 <= u < g.nodes.len() && (#[trigger] fsr[ix]).package == g.nodes[u].id by {
        assert(fsr[ix] == flat[flat.len() - 1 - ix]);
    }
}

} // verus!
