use install_tracker::compile::{CompileFilter, CompileOptions};
use install_tracker::current::{CrateListingV2, InstallInfo};
use install_tracker::ident::{PackageId, SourceId};
use install_tracker::listing::CrateListingV1;
use install_tracker::package::{Dependency, Manifest, Package, PackageSet, Summary, Target,
    TargetKind};
use install_tracker::select::{no_match_error, pick_installable, SelectionError};
use install_tracker::tracker::InstallTracker;
use install_tracker::version::Version;
use install_tracker::Freshness;

fn ver(a: u64, b: u64, c: u64) -> Version {
    Version::new(a, b, c, String::new(), String::new())
}

fn reg() -> SourceId {
    SourceId::Registry { url: "https://example.invalid/index".to_string() }
}

fn pid(name: &str, v: Version) -> PackageId {
    PackageId::new(name.to_string(), v, reg())
}

fn pkg_with(name: &str, deps: Vec<&str>, bins: Vec<&str>, examples: Vec<&str>) -> Package {
    let id = pid(name, ver(1, 0, 0));
    let deps = deps
        .into_iter()
        .map(|d| Dependency::new(d.to_string(), "*".to_string(), false))
        .collect();
    let summary = Summary::new(id, deps, Vec::new());
    let mut targets: Vec<Target> = bins
        .into_iter()
        .map(|b| Target::new(b.to_string(), TargetKind::Bin))
        .collect();
    for e in examples {
        targets.push(Target::new(e.to_string(), TargetKind::ExampleBin));
    }
    let manifest = Manifest::new(summary, targets);
    Package::new(manifest, &format!("/tmp/{}/Cargo.toml", name))
}

fn opts_with_features(features: Vec<&str>) -> CompileOptions {
    CompileOptions {
        filter: CompileFilter::Default,
        features: features.into_iter().map(|f| f.to_string()).collect(),
        all_features: false,
        no_default_features: false,
        profile: "release".to_string(),
    }
}

fn strv(v: Vec<&str>) -> Vec<String> {
    v.into_iter().map(|s| s.to_string()).collect()
}

fn mark(t: &mut InstallTracker, p: &Package, bins: Vec<&str>, features: Vec<&str>) {
    t.mark_installed(
        p,
        &strv(bins),
        None,
        &opts_with_features(features),
        &"x86".to_string(),
        &"rustc 1.0".to_string(),
    );
}

#[test]
fn reinstall_same_settings_is_fresh() {
    let p = pkg_with("p", vec![], vec!["foo"], vec![]);
    let mut t = InstallTracker::new();
    mark(&mut t, &p, vec!["foo"], vec!["x"]);
    let r = t.check_upgrade(
        &strv(vec!["foo"]),
        &p,
        false,
        &opts_with_features(vec!["x"]),
        &"x86".to_string(),
        &String::new(),
    );
    let (f, dups) = r.expect("no conflict");
    assert!(f.is_fresh());
    assert_eq!(dups.len(), 1);
    assert_eq!(dups[0].0, "foo");
    assert!(dups[0].1.as_ref().unwrap().eq_id(p.package_id()));
}

#[test]
fn reinstall_with_other_features_is_dirty() {
    let p = pkg_with("p", vec![], vec!["foo"], vec![]);
    let mut t = InstallTracker::new();
    mark(&mut t, &p, vec!["foo"], vec!["x"]);
    let r = t.check_upgrade(
        &strv(vec!["foo"]),
        &p,
        false,
        &opts_with_features(vec!["y"]),
        &"x86".to_string(),
        &String::new(),
    );
    let (f, _) = r.expect("no conflict");
    assert!(!f.is_fresh());
}

#[test]
fn unrelated_owner_conflicts_unless_forced() {
    let p = pkg_with("p", vec![], vec!["foo"], vec![]);
    let q = pkg_with("q", vec![], vec!["foo"], vec![]);
    let mut t = InstallTracker::new();
    mark(&mut t, &p, vec!["foo"], vec!["x"]);
    let r = t.check_upgrade(
        &strv(vec!["foo"]),
        &q,
        false,
        &opts_with_features(vec![]),
        &"x86".to_string(),
        &String::new(),
    );
    let e = r.err().expect("conflict expected");
    assert_eq!(e.duplicates.len(), 1);
    assert_eq!(e.duplicates[0].0, "foo");
    assert!(e.duplicates[0].1.as_ref().unwrap().eq_id(p.package_id()));
    // with force the same request is simply dirty
    let r2 = t.check_upgrade(
        &strv(vec!["foo"]),
        &q,
        true,
        &opts_with_features(vec![]),
        &"x86".to_string(),
        &String::new(),
    );
    let (f, _) = r2.expect("force overrides");
    assert!(matches!(f, Freshness::Dirty));
}

#[test]
fn untracked_file_conflicts() {
    let p = pkg_with("p", vec![], vec!["foo"], vec![]);
    let t = InstallTracker::new();
    let r = t.check_upgrade(
        &strv(vec!["foo"]),
        &p,
        false,
        &opts_with_features(vec![]),
        &"x86".to_string(),
        &String::new(),
    );
    let e = r.err().expect("untracked duplicate conflicts");
    assert!(e.duplicates[0].1.is_none());
}

#[test]
fn path_sources_are_always_dirty() {
    let id = PackageId::new(
        "p".to_string(),
        ver(1, 0, 0),
        SourceId::Path { path: "/src/p".to_string() },
    );
    let summary = Summary::new(id, Vec::new(), Vec::new());
    let targets = vec![Target::new("foo".to_string(), TargetKind::Bin)];
    let p = Package::new(Manifest::new(summary, targets), &"/src/p/Cargo.toml".to_string());
    let mut t = InstallTracker::new();
    mark(&mut t, &p, vec!["foo"], vec![]);
    let r = t.check_upgrade(
        &strv(vec!["foo"]),
        &p,
        false,
        &opts_with_features(vec![]),
        &"x86".to_string(),
        &String::new(),
    );
    let (f, _) = r.expect("same name, no conflict");
    assert!(matches!(f, Freshness::Dirty));
}

#[test]
fn remove_last_binary_drops_entry_everywhere() {
    let p = pkg_with("p", vec![], vec!["foo"], vec![]);
    let mut t = InstallTracker::new();
    mark(&mut t, &p, vec!["foo"], vec![]);
    assert!(t.installed_bins(p.package_id()).is_some());
    assert!(t.package_for_bin(&"foo".to_string()).is_some());
    t.remove(p.package_id(), &strv(vec!["foo"]));
    assert!(t.installed_bins(p.package_id()).is_none());
    assert!(t.package_for_bin(&"foo".to_string()).is_none());
}

#[test]
fn remove_part_keeps_the_rest() {
    let p = pkg_with("p", vec![], vec!["foo", "bar"], vec![]);
    let mut t = InstallTracker::new();
    mark(&mut t, &p, vec!["foo", "bar"], vec![]);
    t.remove(p.package_id(), &strv(vec!["foo"]));
    let bins = t.installed_bins(p.package_id()).expect("entry kept");
    assert_eq!(bins.len(), 1);
    assert_eq!(bins[0], "bar");
}

fn clone_info(i: &InstallInfo) -> InstallInfo {
    InstallInfo {
        version_req: i.version_req.clone(),
        bins: i.bins.clone(),
        features: i.features.clone(),
        all_features: i.all_features,
        no_default_features: i.no_default_features,
        profile: i.profile.clone(),
        target: i.target.clone(),
        rustc: i.rustc.clone(),
    }
}

#[test]
fn records_agree_after_reload() {
    let p = pkg_with("p", vec![], vec!["foo"], vec![]);
    let q = pkg_with("q", vec![], vec!["bar", "baz"], vec![]);
    let mut t = InstallTracker::new();
    mark(&mut t, &p, vec!["foo"], vec!["x"]);
    mark(&mut t, &q, vec!["bar", "baz"], vec![]);
    t.remove(q.package_id(), &strv(vec!["baz"]));
    // what a reload would hand back after parsing the two files
    let v1_entries: Vec<(PackageId, Vec<String>)> = t
        .all_installed_bins()
        .iter()
        .map(|(id, bins)| (id.clone(), bins.clone()))
        .collect();
    let v2_entries: Vec<(PackageId, InstallInfo)> = t
        .current_entries()
        .iter()
        .map(|(id, info)| (id.clone(), clone_info(info)))
        .collect();
    let v1 = CrateListingV1::from_entries(v1_entries).expect("unique keys");
    let v2 = CrateListingV2::from_entries(v2_entries).expect("unique keys");
    let t2 = InstallTracker::from_records(v1, v2);
    for (id, bins) in t.all_installed_bins() {
        let reloaded = t2.installed_bins(id).expect("identity survives reload");
        let mut a: Vec<String> = bins.clone();
        let mut b: Vec<String> = reloaded.clone();
        a.sort();
        b.sort();
        assert_eq!(a, b);
        for bin in bins {
            assert!(t2.package_for_bin(bin).unwrap().eq_id(id));
        }
    }
}

#[test]
fn reconcile_adopts_legacy_changes() {
    // an older tool added "new" under a fresh identity and removed "foo"
    let p = pid("p", ver(1, 0, 0));
    let n = pid("n", ver(2, 0, 0));
    let v1 = CrateListingV1::from_entries(vec![(n.clone(), strv(vec!["new"]))]).unwrap();
    let mut v2 = CrateListingV2::new();
    v2.mark_installed(
        &p,
        &strv(vec!["foo"]),
        None,
        &opts_with_features(vec!["x"]),
        &"x86".to_string(),
        &"rustc 1.0".to_string(),
    );
    v2.sync_v1(&v1);
    // the stale identity is gone, the new one present with legacy defaults
    assert!(v2.get(&p).is_none());
    let info = v2.get(&n).expect("adopted from legacy");
    assert_eq!(info.bins, strv(vec!["new"]));
    assert_eq!(info.profile, "release");
    assert!(info.target.is_none());
    assert!(info.rustc.is_none());
}

#[test]
fn selection_errors_name_the_request() {
    let dep = Dependency::new("foo".to_string(), "^2.0".to_string(), false);
    let src = reg();
    match no_match_error(&dep, &src, true) {
        SelectionError::Yanked { name, source } => {
            assert_eq!(name, "foo");
            assert_eq!(source, src);
        },
        _ => panic!("expected the yank error"),
    }
    match no_match_error(&dep, &src, false) {
        SelectionError::NotFound { name, source, version_req } => {
            assert_eq!(name, "foo");
            assert_eq!(source, src);
            assert_eq!(version_req, "^2.0");
        },
        _ => panic!("expected the not-found error"),
    }
}

#[test]
fn best_candidate_picks_highest_version() {
    let mk = |v: Version| Summary::new(pid("foo", v), Vec::new(), Vec::new());
    let cands = vec![mk(ver(1, 2, 0)), mk(ver(2, 0, 1)), mk(ver(1, 9, 9))];
    let i = install_tracker::select::best_candidate(&cands).expect("candidates exist");
    assert_eq!(i, 1);
    let empty: Vec<Summary> = Vec::new();
    assert!(install_tracker::select::best_candidate(&empty).is_none());
}

#[test]
fn ambiguity_lists_both_names_sorted() {
    let a = pkg_with("zeta", vec![], vec!["z"], vec![]);
    let b = pkg_with("alpha", vec![], vec!["a"], vec![]);
    match pick_installable(&vec![a, b]) {
        Err(SelectionError::Ambiguous { examples, names }) => {
            assert!(!examples);
            assert_eq!(names, strv(vec!["alpha", "zeta"]));
        },
        _ => panic!("expected ambiguity"),
    }
}

#[test]
fn single_binary_candidate_wins() {
    let a = pkg_with("lib_only", vec![], vec![], vec![]);
    let b = pkg_with("tool", vec![], vec!["t"], vec![]);
    assert_eq!(pick_installable(&vec![a, b]), Ok(1));
}

#[test]
fn example_fallback_and_nothing_installable() {
    let a = pkg_with("lib_only", vec![], vec![], vec![]);
    let b = pkg_with("demo", vec![], vec![], vec!["show"]);
    assert_eq!(pick_installable(&vec![a.clone(), b]), Ok(1));
    assert!(matches!(
        pick_installable(&vec![a]),
        Err(SelectionError::NothingInstallable)
    ));
}

#[test]
fn sort_orders_dependencies_first() {
    let a = pkg_with("a", vec!["b", "c"], vec![], vec![]);
    let b = pkg_with("b", vec!["c"], vec![], vec![]);
    let c = pkg_with("c", vec![], vec![], vec![]);
    let s = PackageSet::new(vec![a, b, c]);
    let sorted = s.sort().expect("acyclic");
    let names: Vec<String> = sorted.packages().iter().map(|p| p.name().clone()).collect();
    assert_eq!(names, strv(vec!["c", "b", "a"]));
}

#[test]
fn sort_detects_cycles_but_not_empty_sets() {
    let a = pkg_with("a", vec!["b"], vec![], vec![]);
    let b = pkg_with("b", vec!["a"], vec![], vec![]);
    assert!(PackageSet::new(vec![a, b]).sort().is_none());
    let empty = PackageSet::new(Vec::new());
    let sorted = empty.sort().expect("empty is not a cycle");
    assert_eq!(sorted.len(), 0);
}

#[test]
fn ownership_stays_exclusive_across_records() {
    let p = pkg_with("p", vec![], vec!["shared"], vec![]);
    let q = pkg_with("q", vec![], vec!["shared"], vec![]);
    let mut t = InstallTracker::new();
    mark(&mut t, &p, vec!["shared"], vec![]);
    mark(&mut t, &q, vec!["shared"], vec![]);
    assert!(t.installed_bins(p.package_id()).is_none());
    assert!(t.package_for_bin(&"shared".to_string()).unwrap().eq_id(q.package_id()));
}

#[test]
fn example_ambiguity_lists_example_names() {
    let a = pkg_with("beta_demo", vec![], vec![], vec!["b"]);
    let b = pkg_with("alpha_demo", vec![], vec![], vec!["a"]);
    match pick_installable(&vec![a, b]) {
        Err(SelectionError::Ambiguous { examples, names }) => {
            assert!(examples);
            assert_eq!(names, strv(vec!["alpha_demo", "beta_demo"]));
        },
        _ => panic!("expected example ambiguity"),
    }
}

#[test]
fn reconcile_twice_equals_once() {
    let p = pid("p", ver(1, 0, 0));
    let q = pid("q", ver(3, 1, 4));
    let v1 = CrateListingV1::from_entries(vec![
        (p.clone(), strv(vec!["foo"])),
        (q.clone(), strv(vec!["bar"])),
    ])
    .unwrap();
    let mut v2 = CrateListingV2::new();
    v2.mark_installed(
        &p,
        &strv(vec!["old"]),
        Some("^1".to_string()),
        &opts_with_features(vec!["x"]),
        &"x86".to_string(),
        &"rustc 1.0".to_string(),
    );
    v2.sync_v1(&v1);
    let snapshot: Vec<(String, Vec<String>, String, Option<String>)> = v2
        .entries()
        .iter()
        .map(|(id, i)| (id.name().clone(), i.bins.clone(), i.profile.clone(), i.version_req.clone()))
        .collect();
    v2.sync_v1(&v1);
    let again: Vec<(String, Vec<String>, String, Option<String>)> = v2
        .entries()
        .iter()
        .map(|(id, i)| (id.name().clone(), i.bins.clone(), i.profile.clone(), i.version_req.clone()))
        .collect();
    assert_eq!(snapshot, again);
    // the settings of the retained identity survive, the new one has defaults
    assert_eq!(v2.get(&p).unwrap().version_req, Some("^1".to_string()));
    assert_eq!(v2.get(&q).unwrap().version_req, None);
}
