//! The package model a resolver works over: package identities,
//! specifiers, manifests, registry summaries, the registry oracle
//! interface, and an in-memory oracle.

use vstd::prelude::*;
use crate::version::{
    Version, VersionView, VersionRange, ComparatorView, version_lt, version_lt_exec,
    version_eq_exec, range_matches, satisfies, version_rep,
};
use crate::text::{str_eq, push_str_chars, clone_strings};

verus! {

/// A package name together with one exact version.
#[derive(Debug, PartialEq, Eq)]
pub struct PackageId {
    pub package_name: String,
    pub version: Version,
}

/// The mathematical content of a [`PackageId`].
pub struct PackageIdView {
    pub name: Seq<char>,
    pub version: VersionView,
}

impl View for PackageId {
    type V = PackageIdView;

    open spec fn view(&self) -> PackageIdView {
        PackageIdView { name: self.package_name@, version: self.version@ }
    }
}

impl DeepView for PackageId {
    type V = PackageIdView;

    open spec fn deep_view(&self) -> PackageIdView {
        self.view()
    }
}

impl Clone for PackageId {
    /// A copy naming the same package and version.
    fn clone(&self) -> (r: Self)
        ensures
            r@ == self@,
    {
        let r = PackageId {
            package_name: self.package_name.clone(),
            version: self.version.clone(),
        };
        proof {
            assert(r@ =~= self@);
        }
        r
    }
}

/// The rendering of a package id: `name@version`.
pub open spec fn id_rep(id: PackageIdView) -> Seq<char> {
    id.name + seq!['@'] + version_rep(id.version)
}

impl PackageId {
    /// Whether two ids name the same package and version.
    pub fn same_id(&self, other: &PackageId) -> (r: bool)
        ensures
            r == (self@ == other@),
    {
        let names = str_eq(self.package_name.as_str(), other.package_name.as_str());
        if !names {
            proof {
                assert(self@ != other@);
            }
            return false;
        }
        let versions = version_eq_exec(&self.version, &other.version);
        proof {
            if versions {
                assert(self@ =~= other@);
            } else {
                assert(self@ != other@);
            }
        }
        versions
    }

    /// The id rendered as `name@version`.
    pub fn to_string(&self) -> (r: String)
        ensures
            r@ == id_rep(self@),
    {
        let mut out: Vec<char> = Vec::new();
        push_str_chars(&mut out, self.package_name.as_str());
        out.push('@');
        crate::version::push_version(&mut out, &self.version);
        proof {
            assert(out@ =~= id_rep(self@));
        }
        crate::text::chars_to_string(&out)
    }
}

/// How a dependency names the package it wants: a registry lookup by
/// name and version range, a URL, or a filesystem path.
#[derive(Debug, PartialEq, Eq)]
pub enum PackageSpecifier {
    Registry { full_name: String, version: VersionRange },
    Url(String),
    Path(String),
}

/// The mathematical content of a [`PackageSpecifier`].
pub enum SpecifierView {
    Registry { full_name: Seq<char>, version: Seq<ComparatorView> },
    Url(Seq<char>),
    Path(Seq<char>),
}

impl View for PackageSpecifier {
    type V = SpecifierView;

    open spec fn view(&self) -> SpecifierView {
        match self {
            PackageSpecifier::Registry { full_name, version } => SpecifierView::Registry {
                full_name: full_name@,
                version: version@,
            },
            PackageSpecifier::Url(u) => SpecifierView::Url(u@),
            PackageSpecifier::Path(p) => SpecifierView::Path(p@),
        }
    }
}

impl Clone for PackageSpecifier {
    /// A copy naming the same source.
    fn clone(&self) -> (r: Self)
        ensures
            r@ == self@,
    {
        match self {
            PackageSpecifier::Registry { full_name, version } => PackageSpecifier::Registry {
                full_name: full_name.clone(),
                version: version.clone(),
            },
            PackageSpecifier::Url(u) => PackageSpecifier::Url(u.clone()),
            PackageSpecifier::Path(p) => PackageSpecifier::Path(p.clone()),
        }
    }
}

/// One dependency declaration: the local alias and the specifier.
#[derive(Debug, PartialEq, Eq)]
pub struct Dependency {
    pub alias: String,
    pub pkg: PackageSpecifier,
}

/// The mathematical content of a [`Dependency`].
pub struct DependencyView {
    pub alias: Seq<char>,
    pub pkg: SpecifierView,
}

impl View for Dependency {
    type V = DependencyView;

    open spec fn view(&self) -> DependencyView {
        DependencyView { alias: self.alias@, pkg: self.pkg@ }
    }
}

impl DeepView for Dependency {
    type V = DependencyView;

    open spec fn deep_view(&self) -> DependencyView {
        self.view()
    }
}

impl Clone for Dependency {
    /// A copy declaring the same alias and specifier.
    fn clone(&self) -> (r: Self)
        ensures
            r@ == self@,
    {
        let r = Dependency { alias: self.alias.clone(), pkg: self.pkg.clone() };
        proof {
            assert(r@ =~= self@);
        }
        r
    }
}

/// A command a package offers, by name.
#[derive(Debug, PartialEq, Eq)]
pub struct Command {
    pub name: String,
}

impl View for Command {
    type V = Seq<char>;

    open spec fn view(&self) -> Seq<char> {
        self.name@
    }
}

impl DeepView for Command {
    type V = Seq<char>;

    open spec fn deep_view(&self) -> Seq<char> {
        self.view()
    }
}

impl Clone for Command {
    /// A copy naming the same command.
    fn clone(&self) -> (r: Self)
        ensures
            r@ == self@,
    {
        Command { name: self.name.clone() }
    }
}

/// One filesystem overlay declaration of a manifest. With a
/// `dependency_name` the overlay is sourced from the named edge's
/// target, else from the declaring package.
#[derive(Debug, PartialEq, Eq)]
pub struct FileSystemMapping {
    pub volume_name: String,
    pub original_path: String,
    pub mount_path: String,
    pub dependency_name: Option<String>,
}

/// The mathematical content of a [`FileSystemMapping`].
pub struct FsMappingView {
    pub volume_name: Seq<char>,
    pub original_path: Seq<char>,
    pub mount_path: Seq<char>,
    pub dependency_name: Option<Seq<char>>,
}

impl View for FileSystemMapping {
    type V = FsMappingView;

    open spec fn view(&self) -> FsMappingView {
        FsMappingView {
            volume_name: self.volume_name@,
            original_path: self.original_path@,
            mount_path: self.mount_path@,
            dependency_name: match &self.dependency_name {
                Some(n) => Some(n@),
                None => None,
            },
        }
    }
}

impl DeepView for FileSystemMapping {
    type V = FsMappingView;

    open spec fn deep_view(&self) -> FsMappingView {
        self.view()
    }
}

impl Clone for FileSystemMapping {
    /// A copy declaring the same overlay.
    fn clone(&self) -> (r: Self)
        ensures
            r@ == self@,
    {
        let r = FileSystemMapping {
            volume_name: self.volume_name.clone(),
            original_path: self.original_path.clone(),
            mount_path: self.mount_path.clone(),
            dependency_name: match &self.dependency_name {
                Some(n) => Some(n.clone()),
                None => None,
            },
        };
        proof {
            assert(r@ =~= self@);
        }
        r
    }
}

/// The manifest content of a package that resolution reads.
#[derive(Debug, PartialEq, Eq)]
pub struct PackageInfo {
    pub name: String,
    pub version: Version,
    pub dependencies: Vec<Dependency>,
    pub commands: Vec<Command>,
    pub entrypoint: Option<String>,
    pub filesystem: Vec<FileSystemMapping>,
}

/// The mathematical content of a [`PackageInfo`].
pub struct PackageInfoView {
    pub name: Seq<char>,
    pub version: VersionView,
    pub dependencies: Seq<DependencyView>,
    pub commands: Seq<Seq<char>>,
    pub entrypoint: Option<Seq<char>>,
    pub filesystem: Seq<FsMappingView>,
}

impl View for PackageInfo {
    type V = PackageInfoView;

    open spec fn view(&self) -> PackageInfoView {
        PackageInfoView {
            name: self.name@,
            version: self.version@,
            dependencies: self.dependencies.deep_view(),
            commands: self.commands.deep_view(),
            entrypoint: match &self.entrypoint {
                Some(e) => Some(e@),
                None => None,
            },
            filesystem: self.filesystem.deep_view(),
        }
    }
}

/// The id a [`PackageInfo`] declares.
pub open spec fn info_id(p: PackageInfoView) -> PackageIdView {
    PackageIdView { name: p.name, version: p.version }
}

impl PackageInfo {
    /// The id this manifest declares.
    pub fn id(&self) -> (r: PackageId)
        ensures
            r@ == info_id(self@),
    {
        let r = PackageId { package_name: self.name.clone(), version: self.version.clone() };
        proof {
            assert(r@ =~= info_id(self@));
        }
        r
    }
}

impl Clone for PackageInfo {
    /// A copy declaring the same manifest content.
    fn clone(&self) -> (r: Self)
        ensures
            r@ == self@,
    {
        let r = PackageInfo {
            name: self.name.clone(),
            version: self.version.clone(),
            dependencies: clone_dependencies(&self.dependencies),
            commands: clone_commands(&self.commands),
            entrypoint: match &self.entrypoint {
                Some(e) => Some(e.clone()),
                None => None,
            },
            filesystem: clone_mappings(&self.filesystem),
        };
        proof {
            assert(r@ =~= self@);
        }
        r
    }
}

/// A copy of a dependency list with the same content.
pub fn clone_dependencies(v: &Vec<Dependency>) -> (r: Vec<Dependency>)
    ensures
        r.deep_view() == v.deep_view(),
{
    let mut r: Vec<Dependency> = Vec::new();
    let mut i: usize = 0;
    while i < v.len()
        invariant
            i <= v.len(),
            r.deep_view() == v.deep_view().subrange(0, i as int),
        decreases v.len() - i,
    {
        let ghost prevv = r@;
        let ghost oldr = r.deep_view();
        let piece = v[i].clone();
        let ghost piecev = piece@;
        r.push(piece);
        i = i + 1;
        proof {
            assert(piecev == v.deep_view()[i - 1]);
            assert(r@.len() == prevv.len() + 1);
            assert(prevv.len() == oldr.len());
            assert(oldr.len() == i - 1);
            assert forall|j: int| 0 <= j < i implies r.deep_view()[j] == v.deep_view()[j] by {
                if j < i - 1 {
                    assert(r@[j] == prevv[j]);
                    assert(r.deep_view()[j] == r@[j].deep_view());
                    assert(oldr[j] == prevv[j].deep_view());
                    assert(oldr[j] == v.deep_view().subrange(0, i - 1)[j]);
                } else {
                    assert(r@[j]@ == piecev);
                    assert(r.deep_view()[j] == r@[j].deep_view());
                }
            }
            assert(r.deep_view() =~= v.deep_view().subrange(0, i as int));
        }
    }
    proof {
        assert(v.deep_view().subrange(0, v.deep_view().len() as int) =~= v.deep_view());
    }
    r
}

/// A copy of a command list with the same content.
pub fn clone_commands(v: &Vec<Command>) -> (r: Vec<Command>)
    ensures
        r.deep_view() == v.deep_view(),
{
    let mut r: Vec<Command> = Vec::new();
    let mut i: usize = 0;
    while i < v.len()
        invariant
            i <= v.len(),
            r.deep_view() == v.deep_view().subrange(0, i as int),
        decreases v.len() - i,
    {
        let ghost prevv = r@;
        let ghost oldr = r.deep_view();
        let piece = v[i].clone();
        let ghost piecev = piece@;
        r.push(piece);
        i = i + 1;
        proof {
            assert(piecev == v.deep_view()[i - 1]);
            assert(r@.len() == prevv.len() + 1);
            assert(prevv.len() == oldr.len());
            assert(oldr.len() == i - 1);
            assert forall|j: int| 0 <= j < i implies r.deep_view()[j] == v.deep_view()[j] by {
                if j < i - 1 {
                    assert(r@[j] == prevv[j]);
                    assert(r.deep_view()[j] == r@[j].deep_view());
                    assert(oldr[j] == prevv[j].deep_view());
                    assert(oldr[j] == v.deep_view().subrange(0, i - 1)[j]);
                } else {
                    assert(r@[j]@ == piecev);
                    assert(r.deep_view()[j] == r@[j].deep_view());
                }
            }
            assert(r.deep_view() =~= v.deep_view().subrange(0, i as int));
        }
    }
    proof {
        assert(v.deep_view().subrange(0, v.deep_view().len() as int) =~= v.deep_view());
    }
    r
}

/// A copy of a mapping list with the same content.
pub fn clone_mappings(v: &Vec<FileSystemMapping>) -> (r: Vec<FileSystemMapping>)
    ensures
        r.deep_view() == v.deep_view(),
{
    let mut r: Vec<FileSystemMapping> = Vec::new();
    let mut i: usize = 0;
    while i < v.len()
        invariant
            i <= v.len(),
            r.deep_view() == v.deep_view().subrange(0, i as int),
        decreases v.len() - i,
    {
        let ghost prevv = r@;
        let ghost oldr = r.deep_view();
        let piece = v[i].clone();
        let ghost piecev = piece@;
        r.push(piece);
        i = i + 1;
        proof {
            assert(piecev == v.deep_view()[i - 1]);
            assert(r@.len() == prevv.len() + 1);
            assert(prevv.len() == oldr.len());
            assert(oldr.len() == i - 1);
            assert forall|j: int| 0 <= j < i implies r.deep_view()[j] == v.deep_view()[j] by {
                if j < i - 1 {
                    assert(r@[j] == prevv[j]);
                    assert(r.deep_view()[j] == r@[j].deep_view());
                    assert(oldr[j] == prevv[j].deep_view());
                    assert(oldr[j] == v.deep_view().subrange(0, i - 1)[j]);
                } else {
                    assert(r@[j]@ == piecev);
                    assert(r.deep_view()[j] == r@[j].deep_view());
                }
            }
            assert(r.deep_view() =~= v.deep_view().subrange(0, i as int));
        }
    }
    proof {
        assert(v.deep_view().subrange(0, v.deep_view().len() as int) =~= v.deep_view());
    }
    r
}

/// The distribution payload a registry attaches to a version: artifact
/// location and content digest. The resolver stores it verbatim and
/// never inspects it.
#[derive(Debug, PartialEq, Eq)]
pub struct DistributionInfo {
    pub webc: String,
    pub webc_sha256: Vec<u8>,
}

/// The mathematical content of a [`DistributionInfo`].
pub struct DistributionView {
    pub webc: Seq<char>,
    pub webc_sha256: Seq<u8>,
}

impl View for DistributionInfo {
    type V = DistributionView;

    open spec fn view(&self) -> DistributionView {
        DistributionView { webc: self.webc@, webc_sha256: self.webc_sha256@ }
    }
}

impl Clone for DistributionInfo {
    /// A copy holding the same payload.
    fn clone(&self) -> (r: Self)
        ensures
            r@ == self@,
    {
        let mut sha: Vec<u8> = Vec::new();
        let mut i: usize = 0;
        while i < self.webc_sha256.len()
            invariant
                i <= self.webc_sha256.len(),
                sha@ == self.webc_sha256@.subrange(0, i as int),
            decreases self.webc_sha256.len() - i,
        {
            sha.push(self.webc_sha256[i]);
            i = i + 1;
            proof {
                assert(sha@ =~= self.webc_sha256@.subrange(0, i as int));
            }
        }
        proof {
            assert(sha@ =~= self.webc_sha256@);
        }
        let r = DistributionInfo { webc: self.webc.clone(), webc_sha256: sha };
        proof {
            assert(r@ =~= self@);
        }
        r
    }
}

/// What a registry answers for one discovered version: the manifest and
/// its distribution payload.
#[derive(Debug, PartialEq, Eq)]
pub struct PackageSummary {
    pub pkg: PackageInfo,
    pub dist: DistributionInfo,
}

/// The mathematical content of a [`PackageSummary`].
pub struct SummaryView {
    pub pkg: PackageInfoView,
    pub dist: DistributionView,
}

impl View for PackageSummary {
    type V = SummaryView;

    open spec fn view(&self) -> SummaryView {
        SummaryView { pkg: self.pkg@, dist: self.dist@ }
    }
}

impl Clone for PackageSummary {
    /// A copy holding the same summary.
    fn clone(&self) -> (r: Self)
        ensures
            r@ == self@,
    {
        let r = PackageSummary { pkg: self.pkg.clone(), dist: self.dist.clone() };
        proof {
            assert(r@ =~= self@);
        }
        r
    }
}

impl PackageSummary {
    /// The id of the summarised package.
    pub fn package_id(&self) -> (r: PackageId)
        ensures
            r@ == info_id(self@.pkg),
    {
        self.pkg.id()
    }
}

/// Failure of a registry query: no candidate matches the specifier.
#[derive(Debug, Clone, PartialEq, Eq)]
pub enum QueryError {
    NotFound,
}

/// The registry oracle a resolver consults: the best candidate for a
/// specifier. Implementations decide what "best" means; the resolver
/// holds for every answer.
pub trait Source {
    /// The best candidate this source knows for `spec`, or a query
    /// error.
    fn latest(&self, spec: &PackageSpecifier) -> (r: Result<PackageSummary, QueryError>);
}

/// Whether a stored summary is a candidate for a registry specifier:
/// same name, version inside the range.
pub open spec fn summary_candidate(
    s: SummaryView,
    full_name: Seq<char>,
    range: Seq<ComparatorView>,
) -> bool {
    s.pkg.name == full_name && range_matches(s.pkg.version, range)
}

/// A registry held in memory: a list of package summaries, one per
/// name and version.
#[derive(Debug, PartialEq, Eq)]
pub struct InMemorySource {
    pub packages: Vec<PackageSummary>,
}

impl View for InMemorySource {
    type V = Seq<SummaryView>;

    open spec fn view(&self) -> Seq<SummaryView> {
        Seq::new(self.packages@.len(), |i: int| self.packages@[i]@)
    }
}

impl InMemorySource {
    /// An empty registry.
    pub fn new() -> (r: InMemorySource)
        ensures
            r@.len() == 0,
    {
        InMemorySource { packages: Vec::new() }
    }

    /// Records a summary. A summary of the same name and version (build
    /// metadata included) is replaced; otherwise the summary is
    /// appended.
    pub fn add(&mut self, summary: PackageSummary)
        ensures
            final(self)@.len() <= old(self)@.len() + 1,
            exists|i: int|
                0 <= i < final(self)@.len() && #[trigger] final(self)@[i] == summary@,
            forall|i: int|
                0 <= i < final(self)@.len() ==> (#[trigger] final(self)@[i] == summary@
                    || exists|j: int| 0 <= j < old(self)@.len() && final(self)@[i] == old(
                    self,
                )@[j]),
    {
        let n = self.packages.len();
        let mut i: usize = 0;
        while i < n
            invariant
                n == self.packages@.len(),
                i <= n,
                self == old(self),
            decreases n - i,
        {
            let same_name = str_eq(
                self.packages[i].pkg.name.as_str(),
                summary.pkg.name.as_str(),
            );
            if same_name {
                let same_version = version_eq_exec(
                    &self.packages[i].pkg.version,
                    &summary.pkg.version,
                );
                if same_version {
                    let ghost sv = summary@;
                    self.packages.set(i, summary);
                    proof {
                        assert(self@[i as int] == sv);
                        assert forall|k: int| 0 <= k < self@.len() implies (self@[k] == sv
                            || exists|j: int|
                            0 <= j < old(self)@.len() && self@[k] == old(self)@[j]) by {
                            if k != i as int {
                                assert(self@[k] == old(self)@[k]);
                            }
                        }
                    }
                    return ;
                }
            }
            i = i + 1;
        }
        let ghost sv = summary@;
        self.packages.push(summary);
        proof {
            assert(self@[self@.len() - 1] == sv);
            assert forall|k: int| 0 <= k < self@.len() implies (self@[k] == sv || exists|j: int|
                0 <= j < old(self)@.len() && self@[k] == old(self)@[j]) by {
                if k < self@.len() - 1 {
                    assert(self@[k] == old(self)@[k]);
                }
            }
        }
    }

    /// The stored summary of exactly this name and version, if any.
    pub fn get(&self, package: &str, version: &Version) -> (r: Option<&PackageSummary>)
        ensures
            match r {
                Some(s) => s@.pkg.name == package@ && s@.pkg.version == version@ && exists|i: int|
                    0 <= i < self@.len() && #[trigger] self@[i] == s@,
                None => forall|i: int|
                    0 <= i < self@.len() ==> !(#[trigger] self@[i].pkg.name == package@
                        && self@[i].pkg.version == version@),
            },
    {
        let mut i: usize = 0;
        while i < self.packages.len()
            invariant
                i <= self.packages@.len(),
                forall|j: int|
                    0 <= j < i ==> !(#[trigger] self@[j].pkg.name == package@
                        && self@[j].pkg.version == version@),
            decreases self.packages@.len() - i,
        {
            let same_name = str_eq(self.packages[i].pkg.name.as_str(), package);
            if same_name {
                let same_version = version_eq_exec(&self.packages[i].pkg.version, version);
                if same_version {
                    proof {
                        assert(self@[i as int] == self.packages@[i as int]@);
                    }
                    return Some(&self.packages[i]);
                }
            }
            proof {
                assert(self@[i as int] == self.packages@[i as int]@);
            }
            i = i + 1;
        }
        None
    }
}

impl Source for InMemorySource {
    /// For a registry specifier: the stored candidate of that name whose
    /// version satisfies the range and is highest in the version order
    /// (the earliest stored among order-equal candidates). `Url` and
    /// `Path` specifiers have no candidates here.
    fn latest(&self, spec: &PackageSpecifier) -> (r: Result<PackageSummary, QueryError>)
        ensures
            match spec@ {
                SpecifierView::Registry { full_name, version: range } => match r {
                    Ok(s) => {
                        &&& exists|i: int|
                            0 <= i < self@.len() && #[trigger] self@[i] == s@
                        &&& summary_candidate(s@, full_name, range)
                        &&& forall|i: int|
                            0 <= i < self@.len() && summary_candidate(
                                #[trigger] self@[i],
                                full_name,
                                range,
                            ) ==> !version_lt(s@.pkg.version, self@[i].pkg.version)
                    },
                    Err(_) => forall|i: int|
                        0 <= i < self@.len() ==> !summary_candidate(
                            #[trigger] self@[i],
                            full_name,
                            range,
                        ),
                },
                _ => r is Err,
            },
    {
        let (full_name, range) = match spec {
            PackageSpecifier::Registry { full_name, version } => (full_name, version),
            _ => {
                return Err(QueryError::NotFound);
            },
        };
        let mut best: Option<usize> = None;
        let mut i: usize = 0;
        while i < self.packages.len()
            invariant
                i <= self.packages@.len(),
                spec@ matches SpecifierView::Registry { full_name: fnv, version: rv }
                    && fnv == full_name@ && rv == range@,
                match best {
                    Some(b) => {
                        &&& (b as int) < i as int
                        &&& summary_candidate(self@[b as int], full_name@, range@)
                        &&& forall|j: int|
                            0 <= j < i && summary_candidate(
                                #[trigger] self@[j],
                                full_name@,
                                range@,
                            ) ==> !version_lt(
                                self@[b as int].pkg.version,
                                self@[j].pkg.version,
                            )
                    },
                    None => forall|j: int|
                        0 <= j < i ==> !summary_candidate(
                            #[trigger] self@[j],
                            full_name@,
                            range@,
                        ),
                },
            decreases self.packages@.len() - i,
        {
            proof {
                assert(self@[i as int] == self.packages@[i as int]@);
            }
            let same_name = str_eq(self.packages[i].pkg.name.as_str(), full_name.as_str());
            if same_name {
                let matches_range = satisfies(&self.packages[i].pkg.version, range);
                if matches_range {
                    match best {
                        None => {
                            proof {
                                crate::version::lemma_version_lt_trichotomy(
                                    self@[i as int].pkg.version,
                                    self@[i as int].pkg.version,
                                );
                            }
                            best = Some(i);
                        },
                        Some(b) => {
                            proof {
                                assert(self@[b as int] == self.packages@[b as int]@);
                            }
                            let better = version_lt_exec(
                                &self.packages[b].pkg.version,
                                &self.packages[i].pkg.version,
                            );
                            if better {
                                proof {
                                    let ghost bv = self@[b as int].pkg.version;
                                    let ghost iv = self@[i as int].pkg.version;
                                    assert forall|j: int|
                                        0 <= j < i + 1 && summary_candidate(
                                            #[trigger] self@[j],
                                            full_name@,
                                            range@,
                                        ) implies !version_lt(iv, self@[j].pkg.version) by {
                                        if j < i as int {
                                            let jv = self@[j].pkg.version;
                                            if version_lt(iv, jv) {
                                                crate::version::lemma_version_lt_trans(
                                                    bv,
                                                    iv,
                                                    jv,
                                                );
                                            }
                                        } else {
                                            crate::version::lemma_version_lt_trichotomy(
                                                iv,
                                                iv,
                                            );
                                        }
                                    }
                                }
                                best = Some(i);
                            }
                        },
                    }
                }
            }
            i = i + 1;
        }
        match best {
            Some(b) => {
                proof {
                    assert(self@[b as int] == self.packages@[b as int]@);
                }
                Ok(self.packages[b].clone())
            },
            None => Err(QueryError::NotFound),
        }
    }
}

} // verus!
