use install_tracker::ident::{PackageId, SourceId};
use install_tracker::listing::CrateListingV1;
use install_tracker::package::{Manifest, Package, PackageSet, Summary, Target, TargetKind};
use install_tracker::text::sorted_names;
use install_tracker::version::Version;

fn ver(a: u64, b: u64, c: u64) -> Version {
    Version::new(a, b, c, String::new(), String::new())
}

fn reg() -> SourceId {
    SourceId::Registry { url: "https://example.invalid/index".to_string() }
}

fn pid(name: &str, v: Version) -> PackageId {
    PackageId::new(name.to_string(), v, reg())
}

fn pkg(name: &str, deps: Vec<&str>, bins: Vec<&str>) -> Package {
    let id = pid(name, ver(1, 0, 0));
    let deps = deps
        .into_iter()
        .map(|d| install_tracker::package::Dependency::new(d.to_string(), "*".to_string(), false))
        .collect();
    let summary = Summary::new(id, deps, Vec::new());
    let targets = bins
        .into_iter()
        .map(|b| Target::new(b.to_string(), TargetKind::Bin))
        .collect();
    let manifest = Manifest::new(summary, targets);
    Package::new(manifest, &format!("/tmp/{}/Cargo.toml", name))
}

#[test]
fn version_ordering() {
    let a = ver(1, 2, 3);
    let b = ver(1, 2, 4);
    assert!(a.lt_version(&b));
    assert!(!b.lt_version(&a));
    let pre = Version::new(1, 2, 4, "alpha".to_string(), String::new());
    assert!(pre.lt_version(&b));
    assert!(a.lt_version(&pre));
}

#[test]
fn identity_equality_is_origin_aware() {
    let p1 = PackageId::new(
        "foo".to_string(),
        ver(1, 0, 0),
        SourceId::Path { path: "/a".to_string() },
    );
    let p2 = PackageId::new(
        "foo".to_string(),
        ver(1, 0, 0),
        SourceId::Path { path: "/b".to_string() },
    );
    let p3 = pid("foo", ver(1, 0, 0));
    assert!(!p1.eq_id(&p2));
    assert!(!p1.eq_id(&p3));
    assert!(p1.eq_id(&p1.clone()));
}

#[test]
fn probe_parses_semver() {
    let id = install_tracker::ident::probe_package_id(
        &"foo".to_string(),
        &"1.2.3".to_string(),
        &reg(),
    )
    .expect("valid version");
    assert_eq!(id.version().major(), 1);
    assert_eq!(id.version().minor(), 2);
    assert_eq!(id.version().patch(), 3);
    assert!(install_tracker::ident::probe_package_id(
        &"foo".to_string(),
        &"^2.0".to_string(),
        &reg(),
    )
    .is_none());
}

#[test]
fn mark_installed_transfers_ownership() {
    let mut l = CrateListingV1::new();
    let a = pid("a", ver(1, 0, 0));
    let b = pid("b", ver(1, 0, 0));
    l.mark_installed(&a, &vec!["foo".to_string(), "bar".to_string()]);
    assert_eq!(l.get(&a).unwrap().len(), 2);
    // b takes over "foo"; a keeps "bar"
    l.mark_installed(&b, &vec!["foo".to_string()]);
    let ab = l.get(&a).unwrap();
    assert_eq!(ab.len(), 1);
    assert_eq!(ab[0], "bar");
    // b takes over "bar" too; a's entry is pruned entirely
    l.mark_installed(&b, &vec!["bar".to_string()]);
    assert!(l.get(&a).is_none());
    let bb = l.get(&b).unwrap();
    assert!(bb.contains(&"foo".to_string()) && bb.contains(&"bar".to_string()));
}

#[test]
fn mark_installed_merges_bins() {
    let mut l = CrateListingV1::new();
    let a = pid("a", ver(1, 0, 0));
    l.mark_installed(&a, &vec!["x".to_string()]);
    l.mark_installed(&a, &vec!["y".to_string()]);
    let bins = l.get(&a).unwrap();
    assert!(bins.contains(&"x".to_string()) && bins.contains(&"y".to_string()));
}

#[test]
fn sorted_names_sorts_and_dedups() {
    let v = vec![
        "pear".to_string(),
        "apple".to_string(),
        "pear".to_string(),
        "fig".to_string(),
    ];
    let s = sorted_names(&v);
    assert_eq!(s, vec!["apple".to_string(), "fig".to_string(), "pear".to_string()]);
}

#[test]
fn exe_names_appends_suffix() {
    let p = pkg("tool", vec![], vec!["main", "aux"]);
    let exes = install_tracker::compile::exe_names(
        &p,
        &install_tracker::compile::CompileFilter::Default,
        &".exe".to_string(),
    );
    assert!(exes.contains(&"main.exe".to_string()));
    assert!(exes.contains(&"aux.exe".to_string()));
    assert_eq!(exes.len(), 2);
}

#[test]
fn package_root_strips_manifest_name() {
    let p = pkg("tool", vec![], vec!["main"]);
    assert_eq!(p.root(), "/tmp/tool".to_string());
}

#[test]
fn package_set_lookup_and_pop() {
    let a = pkg("a", vec!["b"], vec!["abin"]);
    let b = pkg("b", vec![], vec!["bbin"]);
    let mut s = PackageSet::new(vec![a, b]);
    assert_eq!(s.len(), 2);
    assert!(!s.is_empty());
    assert_eq!(s.get(&"a".to_string()).name(), "a");
    let popped = s.pop();
    assert_eq!(popped.name(), "b");
    assert_eq!(s.len(), 1);
}
