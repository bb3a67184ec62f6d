use crate::ident::{PackageId, PackageIdKey, SourceId};
use crate::text::str_eq;
use crate::version::Version;
use vstd::prelude::*;

verus! {

/// The kind of a build target.
#[derive(Clone, Copy, Debug, PartialEq, Eq, Structural)]
pub enum TargetKind {
    Lib,
    Bin,
    ExampleBin,
    ExampleLib,
    Test,
    Bench,
    CustomBuild,
}

pub ghost struct TargetKey {
    pub name: Seq<char>,
    pub kind: TargetKind,
}

/// A build target declared by a package's manifest.
#[derive(Debug)]
pub struct Target {
    name: String,
    kind: TargetKind,
}

impl View for Target {
    type V = TargetKey;

    closed spec fn view(&self) -> TargetKey {
        TargetKey { name: self.name@, kind: self.kind }
    }
}

impl Clone for Target {
    fn clone(&self) -> (res: Self)
        ensures
            res == *self,
    {
        Target { name: self.name.clone(), kind: self.kind }
    }
}

/// Whether a target of this kind is built as an executable.
pub open spec fn kind_is_executable(k: TargetKind) -> bool {
    k == TargetKind::Bin || k == TargetKind::ExampleBin
}

impl Target {
    pub fn new(name: String, kind: TargetKind) -> (r: Target)
        ensures
            r@ == (TargetKey { name: name@, kind }),
    {
        Target { name, kind }
    }

    pub fn name(&self) -> (r: &String)
        ensures
            r@ == self@.name,
    {
        &self.name
    }

    pub fn kind(&self) -> (r: TargetKind)
        ensures
            r == self@.kind,
    {
        self.kind
    }

    pub fn is_bin(&self) -> (r: bool)
        ensures
            r == (self@.kind == TargetKind::Bin),
    {
        self.kind == TargetKind::Bin
    }

    pub fn is_example(&self) -> (r: bool)
        ensures
            r == (self@.kind == TargetKind::ExampleBin || self@.kind == TargetKind::ExampleLib),
    {
        self.kind == TargetKind::ExampleBin || self.kind == TargetKind::ExampleLib
    }

    /// An example that is built as an executable, not as a library.
    pub fn is_exe_example(&self) -> (r: bool)
        ensures
            r == (self@.kind == TargetKind::ExampleBin),
    {
        self.kind == TargetKind::ExampleBin
    }

    pub fn is_executable(&self) -> (r: bool)
        ensures
            r == kind_is_executable(self@.kind),
    {
        self.kind == TargetKind::Bin || self.kind == TargetKind::ExampleBin
    }

    pub fn is_custom_build(&self) -> (r: bool)
        ensures
            r == (self@.kind == TargetKind::CustomBuild),
    {
        self.kind == TargetKind::CustomBuild
    }
}

pub ghost struct DependencyKey {
    pub name: Seq<char>,
    pub version_req: Seq<char>,
    pub exact: bool,
}

/// A declared dependency: the requested package name, the version requirement
/// text, and whether the requirement pins one exact version.
#[derive(Debug)]
pub struct Dependency {
    name: String,
    version_req: String,
    exact: bool,
}

impl View for Dependency {
    type V = DependencyKey;

    closed spec fn view(&self) -> DependencyKey {
        DependencyKey { name: self.name@, version_req: self.version_req@, exact: self.exact }
    }
}

impl Clone for Dependency {
    fn clone(&self) -> (res: Self)
        ensures
            res == *self,
    {
        Dependency {
            name: self.name.clone(),
            version_req: self.version_req.clone(),
            exact: self.exact,
        }
    }
}

impl Dependency {
    pub fn new(name: String, version_req: String, exact: bool) -> (r: Dependency)
        ensures
            r@ == (DependencyKey { name: name@, version_req: version_req@, exact }),
    {
        Dependency { name, version_req, exact }
    }

    pub fn name(&self) -> (r: &String)
        ensures
            r@ == self@.name,
    {
        &self.name
    }

    pub fn version_req(&self) -> (r: &String)
        ensures
            r@ == self@.version_req,
    {
        &self.version_req
    }

    pub fn is_exact(&self) -> (r: bool)
        ensures
            r == self@.exact,
    {
        self.exact
    }
}

pub ghost struct SummaryKey {
    pub id: PackageIdKey,
    pub dependencies: Seq<DependencyKey>,
    pub features: Seq<(Seq<char>, Seq<Seq<char>>)>,
}

/// The view of a feature table.
pub open spec fn features_view(v: Seq<(String, Vec<String>)>) -> Seq<(Seq<char>, Seq<Seq<char>>)> {
    v.map_values(|p: (String, Vec<String>)| (p.0@, crate::text::views(p.1@)))
}

/// The registry-facing summary of a package: its identity, its declared
/// dependencies, and its feature table.
#[derive(Debug)]
pub struct Summary {
    package_id: PackageId,
    dependencies: Vec<Dependency>,
    features: Vec<(String, Vec<String>)>,
}

impl View for Summary {
    type V = SummaryKey;

    closed spec fn view(&self) -> SummaryKey {
        SummaryKey {
            id: self.package_id@,
            dependencies: self.dependencies@.map_values(|d: Dependency| d@),
            features: features_view(self.features@),
        }
    }
}

fn clone_strings(v: &Vec<String>) -> (r: Vec<String>)
    ensures
        r@ == v@,
{
    let mut out: Vec<String> = Vec::new();
    let mut i: usize = 0;
    while i < v.len()
        invariant
            i <= v@.len(),
            out@ =~= v@.take(i as int),
        decreases v@.len() - i,
    {
        out.push(v[i].clone());
        proof {
            assert(out@ =~= v@.take(i + 1));
        }
        i = i + 1;
    }
    proof {
        assert(v@.take(v@.len() as int) =~= v@);
    }
    out
}

fn clone_features(v: &Vec<(String, Vec<String>)>) -> (r: Vec<(String, Vec<String>)>)
    ensures
        features_view(r@) == features_view(v@),
{
    let mut out: Vec<(String, Vec<String>)> = Vec::new();
    let mut i: usize = 0;
    while i < v.len()
        invariant
            i <= v@.len(),
            out@.len() == i,
            forall|j: int| 0 <= j < i ==> features_view(out@)[j] == features_view(v@)[j],
        decreases v@.len() - i,
    {
        let name = v[i].0.clone();
        let vals = clone_strings(&v[i].1);
        let ghost old_out = out@;
        out.push((name, vals));
        proof {
            assert(name@ == v@[i as int].0@);
            assert(vals@ == v@[i as int].1@);
            assert(features_view(out@)[i as int] == features_view(v@)[i as int]);
            assert(forall|j: int|
                0 <= j < i ==> features_view(out@)[j] == features_view(old_out)[j]);
        }
        i = i + 1;
    }
    proof {
        assert(features_view(out@) =~= features_view(v@));
    }
    out
}

fn clone_dependencies(v: &Vec<Dependency>) -> (r: Vec<Dependency>)
    ensures
        r@ == v@,
{
    let mut out: Vec<Dependency> = Vec::new();
    let mut i: usize = 0;
    while i < v.len()
        invariant
            i <= v@.len(),
            out@ =~= v@.take(i as int),
        decreases v@.len() - i,
    {
        out.push(v[i].clone());
        proof {
            assert(out@ =~= v@.take(i + 1));
        }
        i = i + 1;
    }
    proof {
        assert(v@.take(v@.len() as int) =~= v@);
    }
    out
}

fn clone_targets(v: &Vec<Target>) -> (r: Vec<Target>)
    ensures
        r@ == v@,
{
    let mut out: Vec<Target> = Vec::new();
    let mut i: usize = 0;
    while i < v.len()
        invariant
            i <= v@.len(),
            out@ =~= v@.take(i as int),
        decreases v@.len() - i,
    {
        out.push(v[i].clone());
        proof {
            assert(out@ =~= v@.take(i + 1));
        }
        i = i + 1;
    }
    proof {
        assert(v@.take(v@.len() as int) =~= v@);
    }
    out
}

impl Clone for Summary {
    fn clone(&self) -> (res: Self)
        ensures
            res@ == self@,
    {
        Summary {
            package_id: self.package_id.clone(),
            dependencies: clone_dependencies(&self.dependencies),
            features: clone_features(&self.features),
        }
    }
}

impl Summary {
    pub fn new(
        package_id: PackageId,
        dependencies: Vec<Dependency>,
        features: Vec<(String, Vec<String>)>,
    ) -> (r: Summary)
        ensures
            r@ == (SummaryKey {
                id: package_id@,
                dependencies: dependencies@.map_values(|d: Dependency| d@),
                features: features_view(features@),
            }),
    {
        Summary { package_id, dependencies, features }
    }

    pub fn package_id(&self) -> (r: &PackageId)
        ensures
            r@ == self@.id,
    {
        &self.package_id
    }

    pub fn dependencies(&self) -> (r: &Vec<Dependency>)
        ensures
            r@.map_values(|d: Dependency| d@) == self@.dependencies,
    {
        &self.dependencies
    }

    pub fn features(&self) -> (r: &Vec<(String, Vec<String>)>)
        ensures
            features_view(r@) == self@.features,
    {
        &self.features
    }
}

pub ghost struct ManifestKey {
    pub summary: SummaryKey,
    pub targets: Seq<TargetKey>,
}

/// What a parsed manifest declares: the package's summary and its targets.
#[derive(Debug)]
pub struct Manifest {
    summary: Summary,
    targets: Vec<Target>,
}

impl View for Manifest {
    type V = ManifestKey;

    closed spec fn view(&self) -> ManifestKey {
        ManifestKey {
            summary: self.summary@,
            targets: self.targets@.map_values(|t: Target| t@),
        }
    }
}

impl Clone for Manifest {
    fn clone(&self) -> (res: Self)
        ensures
            res@ == self@,
    {
        Manifest { summary: self.summary.clone(), targets: clone_targets(&self.targets) }
    }
}

impl Manifest {
    pub fn new(summary: Summary, targets: Vec<Target>) -> (r: Manifest)
        ensures
            r@ == (ManifestKey {
                summary: summary@,
                targets: targets@.map_values(|t: Target| t@),
            }),
    {
        Manifest { summary, targets }
    }

    pub fn summary(&self) -> (r: &Summary)
        ensures
            r@ == self@.summary,
    {
        &self.summary
    }

    pub fn targets(&self) -> (r: &Vec<Target>)
        ensures
            r@.map_values(|t: Target| t@) == self@.targets,
    {
        &self.targets
    }

    pub fn package_id(&self) -> (r: &PackageId)
        ensures
            r@ == self@.summary.id,
    {
        self.summary.package_id()
    }

    pub fn dependencies(&self) -> (r: &Vec<Dependency>)
        ensures
            r@.map_values(|d: Dependency| d@) == self@.summary.dependencies,
    {
        self.summary.dependencies()
    }
}

pub ghost struct PackageKey {
    pub manifest: ManifestKey,
    pub manifest_path: Seq<char>,
}

/// A package available somewhere in the file system: its manifest plus the
/// path of the manifest file it was read from. Immutable once constructed.
#[derive(Debug)]
pub struct Package {
    manifest: Manifest,
    manifest_path: String,
}

impl View for Package {
    type V = PackageKey;

    closed spec fn view(&self) -> PackageKey {
        PackageKey { manifest: self.manifest@, manifest_path: self.manifest_path@ }
    }
}

impl Clone for Package {
    fn clone(&self) -> (res: Self)
        ensures
            res@ == self@,
    {
        Package { manifest: self.manifest.clone(), manifest_path: self.manifest_path.clone() }
    }
}

/// The directory prefix of a path: everything before the last separator,
/// except that a path directly under the root keeps the root itself.
pub open spec fn parent_of(s: Seq<char>) -> Seq<char>
    decreases s.len(),
{
    if s.len() == 0 {
        s
    } else if s.last() == '/' {
        if s.len() == 1 {
            s
        } else {
            s.take(s.len() - 1)
        }
    } else {
        parent_of(s.take(s.len() - 1))
    }
}

impl Package {
    pub fn new(manifest: Manifest, manifest_path: &String) -> (r: Package)
        ensures
            r@ == (PackageKey { manifest: manifest@, manifest_path: manifest_path@ }),
    {
        Package { manifest, manifest_path: manifest_path.clone() }
    }

    /// The identity of this package.
    pub open spec fn spec_id(&self) -> PackageIdKey {
        self@.manifest.summary.id
    }

    /// The targets this package declares.
    pub open spec fn spec_targets(&self) -> Seq<TargetKey> {
        self@.manifest.targets
    }

    /// The dependencies this package declares.
    pub open spec fn spec_dependencies(&self) -> Seq<DependencyKey> {
        self@.manifest.summary.dependencies
    }

    pub fn dependencies(&self) -> (r: &Vec<Dependency>)
        ensures
            r@.map_values(|d: Dependency| d@) == self.spec_dependencies(),
    {
        self.manifest.dependencies()
    }

    pub fn manifest(&self) -> (r: &Manifest)
        ensures
            r@ == self@.manifest,
    {
        &self.manifest
    }

    pub fn manifest_path(&self) -> (r: &String)
        ensures
            r@ == self@.manifest_path,
    {
        &self.manifest_path
    }

    pub fn name(&self) -> (r: &String)
        ensures
            r@ == self.spec_id().name,
    {
        self.manifest.package_id().name()
    }

    pub fn package_id(&self) -> (r: &PackageId)
        ensures
            r@ == self.spec_id(),
    {
        self.manifest.package_id()
    }

    /// The root directory of the package: the directory of its manifest file.
    pub fn root(&self) -> (r: String)
        ensures
            r@ == parent_of(self@.manifest_path),
    {
        let s = self.manifest_path.as_str();
        let mut end = s.unicode_len();
        proof {
            assert(s@.take(s@.len() as int) =~= s@);
        }
        loop
            invariant
                end <= s@.len(),
                parent_of(s@) == parent_of(s@.take(end as int)),
            ensures
                end <= s@.len(),
                parent_of(s@) == parent_of(s@.take(end as int)),
                end > 0 ==> s@[end - 1] == '/',
            decreases end,
        {
            if end == 0 {
                break ;
            }
            let c = s.get_char(end - 1);
            if c == '/' {
                break ;
            }
            proof {
                assert(s@.take(end as int).len() == end);
                assert(s@.take(end as int).last() == s@[end - 1]);
                assert(s@.take(end as int).take(end - 1) =~= s@.take(end - 1));
            }
            end = end - 1;
        }
        if end == 0 {
            proof {
                assert(s@.take(0) =~= Seq::<char>::empty());
            }
            String::new()
        } else if end == 1 {
            let r = s.substring_char(0, 1);
            proof {
                assert(s@.take(1).len() == 1);
                assert(s@.take(1).last() == s@[0]);
                assert(s@.take(1) =~= s@.subrange(0, 1));
            }
            r.to_owned()
        } else {
            let r = s.substring_char(0, end - 1);
            proof {
                assert(s@.take(end as int).len() == end);
                assert(s@.take(end as int).last() == s@[end - 1]);
                assert(s@.take(end as int).take(end - 1) =~= s@.subrange(0, end - 1));
            }
            r.to_owned()
        }
    }

    pub fn summary(&self) -> (r: &Summary)
        ensures
            r@ == self@.manifest.summary,
    {
        self.manifest.summary()
    }

    pub fn targets(&self) -> (r: &Vec<Target>)
        ensures
            r@.map_values(|t: Target| t@) == self.spec_targets(),
    {
        self.manifest.targets()
    }

    pub fn version(&self) -> (r: &Version)
        ensures
            r@ == self.spec_id().version,
    {
        self.manifest.package_id().version()
    }

    /// Whether any declared target is a build script.
    pub fn has_custom_build(&self) -> (r: bool)
        ensures
            r == exists|i: int|
                0 <= i < self.spec_targets().len() && self.spec_targets()[i].kind
                    == TargetKind::CustomBuild,
    {
        let targets = self.targets();
        let mut i: usize = 0;
        while i < targets.len()
            invariant
                i <= targets@.len(),
                targets@.map_values(|t: Target| t@) == self.spec_targets(),
                forall|j: int|
                    0 <= j < i ==> self.spec_targets()[j].kind != TargetKind::CustomBuild,
            decreases targets@.len() - i,
        {
            if targets[i].is_custom_build() {
                assert(self.spec_targets()[i as int].kind == TargetKind::CustomBuild);
                return true;
            }
            i = i + 1;
        }
        false
    }

    /// Whether this package's name is the given one.
    pub fn name_is(&self, name: &String) -> (r: bool)
        ensures
            r == (self.spec_id().name == name@),
    {
        str_eq(self.name(), name)
    }
}

} // verus!

verus! {

/// An unordered collection of resolved packages, assumed to hold at most one
/// package per name.
#[derive(Debug)]
pub struct PackageSet {
    packages: Vec<Package>,
}

impl PackageSet {
    /// The views of the held packages, in order.
    pub open spec fn pkgs(&self) -> Seq<PackageKey> {
        self.spec_packages().map_values(|p: Package| p@)
    }

    pub closed spec fn spec_packages(&self) -> Seq<Package> {
        self.packages@
    }

    /// Whether some held package has the given name.
    pub open spec fn contains_name(&self, name: Seq<char>) -> bool {
        exists|i: int|
            0 <= i < self.pkgs().len() && #[trigger] self.pkgs()[i].manifest.summary.id.name
                == name
    }

    /// Whether `p` is the first held package bearing `name`.
    pub open spec fn is_first_match(&self, name: Seq<char>, p: PackageKey) -> bool {
        exists|i: int| #![trigger self.pkgs()[i]]
            0 <= i < self.pkgs().len() && self.pkgs()[i] == p
                && self.pkgs()[i].manifest.summary.id.name == name && (forall|j: int|
                0 <= j < i ==> #[trigger] self.pkgs()[j].manifest.summary.id.name != name)
    }

    pub fn new(packages: Vec<Package>) -> (r: PackageSet)
        ensures
            r.spec_packages() == packages@,
    {
        PackageSet { packages }
    }

    pub fn is_empty(&self) -> (r: bool)
        ensures
            r == (self.pkgs().len() == 0),
    {
        self.packages.len() == 0
    }

    pub fn len(&self) -> (r: usize)
        ensures
            r == self.pkgs().len(),
    {
        self.packages.len()
    }

    /// Removes and returns the last package. The set must not be empty.
    pub fn pop(&mut self) -> (r: Package)
        requires
            old(self).pkgs().len() > 0,
        ensures
            r == old(self).spec_packages().last(),
            final(self).spec_packages() == old(self).spec_packages().drop_last(),
    {
        let r = self.packages.pop().unwrap();
        proof {
            assert(self.packages@ =~= old(self).packages@.drop_last());
        }
        r
    }

    pub fn packages(&self) -> (r: &Vec<Package>)
        ensures
            r@ == self.spec_packages(),
    {
        &self.packages
    }

    /// The first package with the given name. The set must hold one.
    pub fn get(&self, name: &String) -> (r: &Package)
        requires
            self.contains_name(name@),
        ensures
            self.is_first_match(name@, r@),
    {
        let mut i: usize = 0;
        loop
            invariant
                i <= self.pkgs().len(),
                self.contains_name(name@),
                forall|j: int|
                    0 <= j < i ==> #[trigger] self.pkgs()[j].manifest.summary.id.name != name@,
            decreases self.pkgs().len() - i,
        {
            if i == self.packages.len() {
                proof {
                    let w = choose|w: int|
                        0 <= w < self.pkgs().len()
                            && #[trigger] self.pkgs()[w].manifest.summary.id.name == name@;
                    assert(false);
                }
            }
            if self.packages[i].name_is(name) {
                proof {
                    assert(self.pkgs()[i as int] == self.packages@[i as int]@);
                }
                return &self.packages[i];
            }
            proof {
                assert(self.pkgs()[i as int] == self.packages@[i as int]@);
            }
            i = i + 1;
        }
    }

    /// The first packages carrying each requested name, in request order.
    pub fn get_all(&self, names: &Vec<String>) -> (r: Vec<&Package>)
        requires
            forall|n: int| 0 <= n < names@.len() ==> self.contains_name(#[trigger] names@[n]@),
        ensures
            r@.len() == names@.len(),
            forall|n: int|
                0 <= n < names@.len() ==> self.is_first_match(
                    names@[n]@,
                    #[trigger] r@[n]@,
                ),
    {
        let mut out: Vec<&Package> = Vec::new();
        let mut n: usize = 0;
        while n < names.len()
            invariant
                n <= names@.len(),
                out@.len() == n,
                forall|m: int| 0 <= m < names@.len() ==> self.contains_name(#[trigger] names@[m]@),
                forall|m: int|
                    0 <= m < n ==> self.is_first_match(names@[m]@, #[trigger] out@[m]@),
            decreases names@.len() - n,
        {
            let ghost prev = out@;
            out.push(self.get(&names[n]));
            proof {
                assert(forall|m: int| 0 <= m < prev.len() ==> out@[m] == prev[m]);
            }
            n = n + 1;
        }
        out
    }
}

} // verus!

verus! {

/// Whether `p` declares a dependency bearing `q`'s name.
pub open spec fn depends_on(p: PackageKey, q: PackageKey) -> bool {
    exists|d: int|
        0 <= d < p.manifest.summary.dependencies.len() && (#[trigger] p.manifest.summary.dependencies[d]).name
            == q.manifest.summary.id.name
}

/// A witness that the dependency graph has a cycle: a set of indices with a
/// member, every member of which depends on some member.
pub open spec fn cycle_witness(pkgs: Seq<PackageKey>, s: Set<int>) -> bool {
    &&& exists|i: int| s.contains(i)
    &&& forall|i: int| #[trigger] s.contains(i) ==> 0 <= i < pkgs.len()
    &&& forall|i: int| #[trigger]
        s.contains(i) ==> exists|j: int| #[trigger] s.contains(j) && depends_on(pkgs[i], pkgs[j])
}

pub open spec fn cyclic(pkgs: Seq<PackageKey>) -> bool {
    exists|s: Set<int>| cycle_witness(pkgs, s)
}

/// A valid install order over `pkgs`: the same packages, each standing after
/// every package it depends on.
pub open spec fn topo_order(pkgs: Seq<PackageKey>, order: Seq<PackageKey>) -> bool {
    &&& order.to_multiset() == pkgs.to_multiset()
    &&& forall|a: int, b: int|
        0 <= a < order.len() && 0 <= b < order.len() && depends_on(
            #[trigger] order[a],
            #[trigger] order[b],
        ) ==> b < a
}

/// The position of some remaining package that `rest[c]` depends on, if any.
fn find_blocker(rest: &Vec<Package>, c: usize) -> (r: Option<usize>)
    requires
        c < rest@.len(),
    ensures
        match r {
            Some(b) => b < rest@.len() && depends_on(rest@[c as int]@, rest@[b as int]@),
            None => forall|p: int|
                0 <= p < rest@.len() ==> !depends_on(rest@[c as int]@, (#[trigger] rest@[p])@),
        },
{
    let mut q: usize = 0;
    while q < rest.len()
        invariant
            q <= rest@.len(),
            c < rest@.len(),
            forall|p: int| 0 <= p < q ==> !depends_on(rest@[c as int]@, (#[trigger] rest@[p])@),
        decreases rest@.len() - q,
    {
        if pkg_depends_on(&rest[c], &rest[q]) {
            return Some(q);
        }
        q = q + 1;
    }
    None
}

/// Whether `p` declares a dependency bearing `q`'s name.
fn pkg_depends_on(p: &Package, q: &Package) -> (r: bool)
    ensures
        r == depends_on(p@, q@),
{
    let deps = p.dependencies();
    let mut d: usize = 0;
    while d < deps.len()
        invariant
            d <= deps@.len(),
            deps@.map_values(|x: Dependency| x@) == p.spec_dependencies(),
            forall|e: int|
                0 <= e < d ==> (#[trigger] p.spec_dependencies()[e]).name
                    != q@.manifest.summary.id.name,
        decreases deps@.len() - d,
    {
        proof {
            assert(p.spec_dependencies()[d as int] == deps@[d as int]@);
        }
        if str_eq(deps[d].name(), q.name()) {
            return true;
        }
        d = d + 1;
    }
    false
}

/// Moving one element from the rest to the end of the order keeps the
/// combined multiset.
proof fn proof_ms_step(prev_o: Seq<PackageKey>, prev_r: Seq<PackageKey>, total: Seq<PackageKey>, pc: int)
    requires
        0 <= pc < prev_r.len(),
        prev_o.to_multiset().add(prev_r.to_multiset()) == total.to_multiset(),
    ensures
        prev_o.push(prev_r[pc]).to_multiset().add(prev_r.remove(pc).to_multiset())
            == total.to_multiset(),
{
    broadcast use vstd::seq_lib::group_to_multiset_ensures;

    assert(prev_r.remove(pc).to_multiset() =~= prev_r.to_multiset().remove(prev_r[pc]));
    assert(prev_o.push(prev_r[pc]).to_multiset() =~= prev_o.to_multiset().insert(prev_r[pc]));
    assert(prev_r.to_multiset().contains(prev_r[pc]));
    assert(prev_o.push(prev_r[pc]).to_multiset().add(prev_r.remove(pc).to_multiset())
        =~= total.to_multiset());
}

/// One greedy step keeps the ordering facts: moving a package with no
/// dependency left in the rest preserves the cross- and internal-order
/// invariants.
proof fn lemma_pick_step(
    prev_o: Seq<PackageKey>,
    prev_r: Seq<PackageKey>,
    prev_ri: Seq<int>,
    oview: Seq<PackageKey>,
    rview: Seq<PackageKey>,
    ridx: Seq<int>,
    total: Seq<PackageKey>,
    pc: int,
)
    requires
        0 <= pc < prev_r.len(),
        oview == prev_o.push(prev_r[pc]),
        rview == prev_r.remove(pc),
        ridx == prev_ri.remove(pc),
        prev_o.to_multiset().add(prev_r.to_multiset()) == total.to_multiset(),
        prev_ri.len() == prev_r.len(),
        forall|q: int| #![trigger prev_ri[q]]
            0 <= q < prev_r.len() ==> 0 <= prev_ri[q] < total.len() && prev_r[q]
                == total[prev_ri[q]],
        forall|a: int, q: int| #![trigger prev_o[a], prev_r[q]]
            0 <= a < prev_o.len() && 0 <= q < prev_r.len() ==> !depends_on(prev_o[a], prev_r[q]),
        forall|a: int, b: int|
            0 <= a < prev_o.len() && 0 <= b < prev_o.len() && depends_on(
                #[trigger] prev_o[a],
                #[trigger] prev_o[b],
            ) ==> b < a,
        forall|q: int| 0 <= q < prev_r.len() ==> !depends_on(prev_r[pc], #[trigger] prev_r[q]),
    ensures
        ridx.len() == rview.len(),
        oview.to_multiset().add(rview.to_multiset()) == total.to_multiset(),
        forall|q: int| #![trigger ridx[q]]
            0 <= q < rview.len() ==> 0 <= ridx[q] < total.len() && rview[q] == total[ridx[q]],
        forall|a: int, q: int| #![trigger oview[a], rview[q]]
            0 <= a < oview.len() && 0 <= q < rview.len() ==> !depends_on(oview[a], rview[q]),
        forall|a: int, b: int|
            0 <= a < oview.len() && 0 <= b < oview.len() && depends_on(
                #[trigger] oview[a],
                #[trigger] oview[b],
            ) ==> b < a,
{
    proof_ms_step(prev_o, prev_r, total, pc);
    assert forall|q: int| #![trigger ridx[q]]
        0 <= q < rview.len() implies 0 <= ridx[q] < total.len() && rview[q] == total[ridx[q]] by {
        let oq = if q < pc {
            q
        } else {
            q + 1
        };
        assert(rview[q] == prev_r[oq] && ridx[q] == prev_ri[oq]);
    }
    assert forall|a: int, q: int| #![trigger oview[a], rview[q]]
        0 <= a < oview.len() && 0 <= q < rview.len() implies !depends_on(oview[a], rview[q]) by {
        let oq = if q < pc {
            q
        } else {
            q + 1
        };
        assert(rview[q] == prev_r[oq]);
        if a < oview.len() - 1 {
            assert(oview[a] == prev_o[a]);
            assert(!depends_on(prev_o[a], prev_r[oq]));
        } else {
            assert(oview[a] == prev_r[pc]);
            assert(!depends_on(prev_r[pc], prev_r[oq]));
        }
    }
    assert forall|a: int, b: int|
        0 <= a < oview.len() && 0 <= b < oview.len() && depends_on(
            #[trigger] oview[a],
            #[trigger] oview[b],
        ) implies b < a by {
        if b == oview.len() - 1 && a < oview.len() - 1 {
            assert(oview[a] == prev_o[a]);
            assert(oview[b] == prev_r[pc]);
            assert(!depends_on(prev_o[a], prev_r[pc]));
        }
        if a == oview.len() - 1 && b == oview.len() - 1 {
            assert(!depends_on(prev_r[pc], prev_r[pc]));
        }
    }
}

/// When every remaining package depends on some remaining package, the
/// remaining original indices witness a cycle.
proof fn lemma_stuck_cycle(
    total: Seq<PackageKey>,
    rview: Seq<PackageKey>,
    ridx: Seq<int>,
    blk: Seq<int>,
)
    requires
        rview.len() > 0,
        ridx.len() == rview.len(),
        blk.len() == rview.len(),
        forall|q: int| #![trigger ridx[q]]
            0 <= q < rview.len() ==> 0 <= ridx[q] < total.len() && rview[q] == total[ridx[q]],
        forall|p: int| #![trigger blk[p]]
            0 <= p < rview.len() ==> 0 <= blk[p] < rview.len() && depends_on(rview[p], rview[blk[p]]),
    ensures
        cycle_witness(total, ridx.to_set()),
{
    let s = ridx.to_set();
    assert(s.contains(ridx[0]));
    assert forall|i2: int| #[trigger] s.contains(i2) implies 0 <= i2 < total.len() && (exists|
        j2: int,
    | #[trigger]
        s.contains(j2) && depends_on(total[i2], total[j2])) by {
        assert(ridx.contains(i2));
        let p = choose|p: int| 0 <= p < ridx.len() && ridx[p] == i2;
        assert(0 <= p < ridx.len() && ridx[p] == i2);
        assert(rview[p] == total[i2]);
        let b = blk[p];
        assert(depends_on(rview[p], rview[b]));
        assert(rview[b] == total[ridx[b]]);
        assert(s.contains(ridx[b]));
        assert(depends_on(total[i2], total[ridx[b]]));
    }
}

impl PackageSet {
    /// An ordering in which every package stands after every contained
    /// package it depends on, or nothing when the dependency graph has a
    /// cycle. An empty set orders as the empty sequence, which is distinct
    /// from the cycle outcome.
    #[verifier::rlimit(100)]
    pub fn sort(&self) -> (r: Option<PackageSet>)
        ensures
            match r {
                Some(ps) => topo_order(self.pkgs(), ps.pkgs()),
                None => cyclic(self.pkgs()),
            },
    {
        let mut rest: Vec<Package> = Vec::new();
        let mut i: usize = 0;
        while i < self.packages.len()
            invariant
                i <= self.packages@.len(),
                rest@.len() == i,
                forall|m: int| 0 <= m < i ==> (#[trigger] rest@[m])@ == self.pkgs()[m],
            decreases self.packages@.len() - i,
        {
            rest.push(self.packages[i].clone());
            proof {
                assert(self.pkgs()[i as int] == self.packages@[i as int]@);
            }
            i = i + 1;
        }
        let mut out: Vec<Package> = Vec::new();
        let ghost total = self.pkgs();
        let ghost mut oview: Seq<PackageKey> = Seq::empty();
        let ghost mut rview: Seq<PackageKey> = total;
        let ghost mut ridx: Seq<int> = Seq::new(total.len(), |m: int| m);
        proof {
            broadcast use vstd::seq_lib::group_to_multiset_ensures;

            assert(rview =~= rest@.map_values(|p: Package| p@));
            assert(oview.to_multiset().add(rview.to_multiset()) =~= total.to_multiset());
        }
        while rest.len() > 0
            invariant
                total == self.pkgs(),
                oview == out@.map_values(|p: Package| p@),
                rview == rest@.map_values(|p: Package| p@),
                oview.to_multiset().add(rview.to_multiset()) == total.to_multiset(),
                ridx.len() == rview.len(),
                forall|q: int| #![trigger ridx[q]]
                    0 <= q < rview.len() ==> 0 <= ridx[q] < total.len() && rview[q]
                        == total[ridx[q]],
                forall|a: int, q: int| #![trigger oview[a], rview[q]]
                    0 <= a < oview.len() && 0 <= q < rview.len() ==> !depends_on(
                        oview[a],
                        rview[q],
                    ),
                forall|a: int, b: int|
                    0 <= a < oview.len() && 0 <= b < oview.len() && depends_on(
                        #[trigger] oview[a],
                        #[trigger] oview[b],
                    ) ==> b < a,
            decreases rest@.len(),
        {
            let mut pick: Option<usize> = None;
            let ghost mut blk: Seq<int> = Seq::empty();
            let mut c: usize = 0;
            while c < rest.len()
                invariant
                    c <= rest@.len(),
                    rview == rest@.map_values(|p: Package| p@),
                    pick is None ==> blk.len() == c,
                    pick is None ==> (forall|p: int| #![trigger blk[p]]
                        0 <= p < c ==> 0 <= blk[p] < rview.len() && depends_on(
                            rview[p],
                            rview[blk[p]],
                        )),
                    match pick {
                        Some(pc) => pc < rest@.len() && (forall|q: int|
                            0 <= q < rview.len() ==> !depends_on(
                                rview[pc as int],
                                #[trigger] rview[q],
                            )),
                        None => true,
                    },
                ensures
                    pick is None ==> blk.len() == rview.len(),
                    pick is None ==> (forall|p: int| #![trigger blk[p]]
                        0 <= p < rview.len() ==> 0 <= blk[p] < rview.len() && depends_on(
                            rview[p],
                            rview[blk[p]],
                        )),
                    match pick {
                        Some(pc) => pc < rest@.len() && (forall|q: int|
                            0 <= q < rview.len() ==> !depends_on(
                                rview[pc as int],
                                #[trigger] rview[q],
                            )),
                        None => true,
                    },
                decreases rest@.len() - c,
            {
                match find_blocker(&rest, c) {
                    Some(b) => {
                        proof {
                            assert(rview[c as int] == rest@[c as int]@);
                            assert(rview[b as int] == rest@[b as int]@);
                            blk = blk.push(b as int);
                        }
                    },
                    None => {
                        proof {
                            assert forall|q: int|
                                0 <= q < rview.len() implies !depends_on(
                                rview[c as int],
                                #[trigger] rview[q],
                            ) by {
                                assert(rview[q] == rest@[q]@);
                                assert(rview[c as int] == rest@[c as int]@);
                            }
                        }
                        pick = Some(c);
                        break ;
                    },
                }
                c = c + 1;
            }
            match pick {
                Some(pc) => {
                    let chosen = rest.remove(pc);
                    let ghost prev_o = oview;
                    let ghost prev_r = rview;
                    let ghost prev_ri = ridx;
                    out.push(chosen);
                    proof {
                        oview = oview.push(prev_r[pc as int]);
                        rview = rview.remove(pc as int);
                        ridx = ridx.remove(pc as int);
                        assert(oview =~= out@.map_values(|p: Package| p@));
                        assert(rview =~= rest@.map_values(|p: Package| p@));
                        lemma_pick_step(
                            prev_o,
                            prev_r,
                            prev_ri,
                            oview,
                            rview,
                            ridx,
                            total,
                            pc as int,
                        );
                    }
                },
                None => {
                    proof {
                        lemma_stuck_cycle(total, rview, ridx, blk);
                        assert(cycle_witness(self.pkgs(), ridx.to_set()));
                        assert(cyclic(self.pkgs()));
                    }
                    return None;
                },
            }
        }
        proof {
            broadcast use vstd::seq_lib::group_to_multiset_ensures;

            assert(rview =~= Seq::<PackageKey>::empty());
            assert forall|x: PackageKey| true implies rview.to_multiset().count(x) == 0 by {
                if rview.to_multiset().count(x) > 0 {
                    assert(rview.contains(x));
                }
            }
            assert(oview.to_multiset() =~= total.to_multiset());
        }
        let ps = PackageSet::new(out);
        proof {
            assert(ps.pkgs() =~= oview);
            assert(topo_order(total, oview));
            assert(topo_order(self.pkgs(), ps.pkgs()));
        }
        Some(ps)
    }
}

} // verus!
