use crate::compile::{exe_name_set, exe_names, CompileOptions};
use crate::current::{info_up_to_date, sync_spec, CrateListingV2, InstallInfoKey};
use crate::ident::{source_precise, PackageId, PackageIdKey};
use crate::listing::{survives, CrateListingV1};
use crate::package::Package;
use crate::text::{contains_string, sorted_strictly, str_eq, string_set, views};
use crate::Freshness;
use vstd::prelude::*;

verus! {

/// Duplicate binaries owned by another package, reported when installing
/// without force would overwrite them: every offending binary with the
/// identity that owns it, `None` for an untracked file.
#[derive(Debug)]
pub struct ConflictError {
    pub duplicates: Vec<(String, Option<PackageId>)>,
}

/// The view of one found duplicate.
pub open spec fn dup_view(d: (String, Option<PackageId>)) -> (Seq<char>, Option<PackageIdKey>) {
    (
        d.0@,
        match d.1 {
            Some(p) => Some(p@),
            None => None,
        },
    )
}

pub open spec fn dups_view(d: Seq<(String, Option<PackageId>)>) -> Seq<
    (Seq<char>, Option<PackageIdKey>),
> {
    d.map_values(|e: (String, Option<PackageId>)| dup_view(e))
}

/// Whether the recorded owner of a binary is as the current record says: the
/// first tracked identity whose binaries contain the name, or none.
pub open spec fn owner_ok(
    v: Seq<(PackageIdKey, InstallInfoKey)>,
    b: Seq<char>,
    o: Option<PackageIdKey>,
) -> bool {
    match o {
        Some(p) => exists|m: int| #![trigger v[m]]
            0 <= m < v.len() && v[m].0 == p && v[m].1.bins.contains(b) && (forall|j: int|
                0 <= j < m ==> !(#[trigger] v[j]).1.bins.contains(b)),
        None => forall|m: int| 0 <= m < v.len() ==> !(#[trigger] v[m]).1.bins.contains(b),
    }
}

/// A found duplicate conflicts unless a tracked identity bearing the
/// candidate's own name owns it.
pub open spec fn dup_conflicts(d: (Seq<char>, Option<PackageIdKey>), name: Seq<char>) -> bool {
    match d.1 {
        None => true,
        Some(o) => o.name != name,
    }
}

pub open spec fn some_conflict(ds: Seq<(Seq<char>, Option<PackageIdKey>)>, name: Seq<char>) -> bool {
    exists|m: int| 0 <= m < ds.len() && dup_conflicts(#[trigger] ds[m], name)
}

/// Whether every found duplicate's owner matches the candidate exactly:
/// identical version, identical origin, identical pinned revision, and a
/// recorded configuration that satisfies the request.
pub open spec fn all_up_to_date(
    ds: Seq<(Seq<char>, Option<PackageIdKey>)>,
    v2: Seq<(PackageIdKey, InstallInfoKey)>,
    pkg: PackageIdKey,
    features: Set<Seq<char>>,
    all_features: bool,
    no_default_features: bool,
    profile: Seq<char>,
    target: Seq<char>,
    exes: Set<Seq<char>>,
) -> bool {
    forall|m: int|
        0 <= m < ds.len() ==> ((#[trigger] ds[m]).1 matches Some(o) && o.version == pkg.version
            && o.source == pkg.source && source_precise(o.source) == source_precise(pkg.source)
            && info_up_to_date(
            v2[crate::current::v2v_index(v2, o)].1,
            features,
            all_features,
            no_default_features,
            profile,
            target,
            exes,
        ))
}

/// The two on-disk tracking records held together: loaded together, mutated
/// in lockstep, and persisted together, so they cannot diverge.
#[derive(Debug)]
pub struct InstallTracker {
    v1: CrateListingV1,
    v2: CrateListingV2,
}

impl InstallTracker {
    pub closed spec fn v1(&self) -> CrateListingV1 {
        self.v1
    }

    pub closed spec fn v2(&self) -> CrateListingV2 {
        self.v2
    }

    /// The records agree: they track the same identities, and the same
    /// binaries for each.
    pub open spec fn records_agree(&self) -> bool {
        &&& forall|k: PackageIdKey| #[trigger] self.v1().has_key(k) <==> self.v2().has_key(k)
        &&& forall|k: PackageIdKey|
            #[trigger] self.v1().has_key(k) ==> self.v1().bins_of(k) == self.v2().bins_of(k)
    }

    pub open spec fn wf(&self) -> bool {
        self.v1().wf() && self.v2().wf() && self.records_agree()
    }

    pub fn new() -> (r: InstallTracker)
        ensures
            r.wf(),
            forall|k: PackageIdKey| !r.v1().has_key(k),
    {
        InstallTracker { v1: CrateListingV1::new(), v2: CrateListingV2::new() }
    }

    /// Assembles a tracker from freshly parsed records, reconciling the
    /// current record against the legacy one first, as a load must.
    pub fn from_records(v1: CrateListingV1, v2: CrateListingV2) -> (r: InstallTracker)
        requires
            v1.wf(),
            v2.wf(),
        ensures
            r.wf(),
            r.v1() == v1,
            r.v2()@ == sync_spec(v2@, v1@),
    {
        let mut v2 = v2;
        v2.sync_v1(&v1);
        let r = InstallTracker { v1, v2 };
        proof {
            let s = r.v2()@;
            assert forall|k: PackageIdKey| #[trigger] r.v1().has_key(k) implies r.v2().has_key(
                k,
            ) && r.v1().bins_of(k) == r.v2().bins_of(k) by {
                let j = r.v1().index_of(k);
                assert(0 <= j < r.v1().keys().len() && r.v1().keys()[j] == k);
                assert(r.v1().keys()[j] == r.v1()@[j].0);
                assert(s[j] == (r.v1()@[j].0, sync_spec(v2@, r.v1()@)[j].1));
                assert(s[j].0 == k);
                assert(crate::current::v2v_has(s, k));
                let w = crate::current::v2v_index(s, k);
                assert(0 <= w < s.len() && s[w].0 == k);
                if w != j {
                    assert(s[w].0 == r.v1()@[w].0);
                    assert(r.v1().keys()[w] == r.v1()@[w].0);
                    assert(r.v1().keys()[w] != r.v1().keys()[j]);
                    assert(false);
                }
                assert(s[j].1.bins == r.v1()@[j].1.to_set());
                assert(r.v1().bins_of(k) == r.v1()@[j].1.to_set());
            }
            assert forall|k: PackageIdKey| #[trigger] r.v2().has_key(k) implies r.v1().has_key(
                k,
            ) by {
                let w = crate::current::v2v_index(s, k);
                assert(0 <= w < s.len() && s[w].0 == k);
                assert(s[w].0 == r.v1()@[w].0);
                assert(r.v1().keys()[w] == r.v1()@[w].0);
            }
        }
        r
    }

    /// Every tracked identity with the binaries it owns; the legacy record is
    /// the authoritative enumeration source.
    pub fn all_installed_bins(&self) -> (r: &Vec<(PackageId, Vec<String>)>)
        ensures
            crate::listing::v1_view(r@) == self.v1()@,
    {
        self.v1.entries()
    }

    /// Every tracked identity with its recorded settings, from the current
    /// record.
    pub fn current_entries(&self) -> (r: &Vec<(PackageId, crate::current::InstallInfo)>)
        ensures
            crate::current::v2_view(r@) == self.v2()@,
    {
        self.v2.entries()
    }

    /// The binaries a particular identity installed, if it is tracked.
    pub fn installed_bins(&self, pkg_id: &PackageId) -> (r: Option<&Vec<String>>)
        requires
            self.wf(),
        ensures
            match r {
                Some(b) => self.v1().has_key(pkg_id@) && string_set(b@) == self.v1().bins_of(
                    pkg_id@,
                ),
                None => !self.v1().has_key(pkg_id@),
            },
    {
        self.v1.get(pkg_id)
    }

    /// The first tracked identity owning the given binary name, if any.
    pub fn package_for_bin(&self, bin: &String) -> (r: Option<&PackageId>)
        ensures
            match r {
                Some(p) => exists|m: int| #![trigger self.v2()@[m]]
                    0 <= m < self.v2()@.len() && self.v2()@[m].0 == p@
                        && self.v2()@[m].1.bins.contains(bin@) && (forall|j: int|
                        0 <= j < m ==> !(#[trigger] self.v2()@[j]).1.bins.contains(bin@)),
                None => forall|m: int|
                    0 <= m < self.v2()@.len() ==> !(#[trigger] self.v2()@[m]).1.bins.contains(
                        bin@,
                    ),
            },
    {
        self.v2.package_for_bin(bin)
    }

    /// Records an installation in both records within one operation, so they
    /// cannot diverge between saves.
    pub fn mark_installed(
        &mut self,
        package: &Package,
        bins: &Vec<String>,
        version_req: Option<String>,
        opts: &CompileOptions,
        target: &String,
        rustc: &String,
    )
        requires
            old(self).wf(),
        ensures
            final(self).wf(),
            final(self).v1().has_key(package.spec_id()),
            final(self).v1().bins_of(package.spec_id()) == (if old(self).v1().has_key(
                package.spec_id(),
            ) {
                old(self).v1().bins_of(package.spec_id()).union(string_set(bins@))
            } else {
                string_set(bins@)
            }),
            final(self).v2().info_of(package.spec_id()) == (InstallInfoKey {
                version_req: crate::ident::opt_view(version_req),
                bins: final(self).v1().bins_of(package.spec_id()),
                features: string_set(opts.features@),
                all_features: opts.all_features,
                no_default_features: opts.no_default_features,
                profile: opts.profile@,
                target: Some(target@),
                rustc: Some(rustc@),
            }),
            forall|k: PackageIdKey|
                k != package.spec_id() ==> (#[trigger] final(self).v1().has_key(k) <==> old(self).v1().has_key(k) && survives(old(self).v1().bins_of(k), string_set(bins@))),
            forall|k: PackageIdKey|
                k != package.spec_id() && #[trigger] final(self).v1().has_key(k) ==> final(self).v1().bins_of(k) == old(self).v1().bins_of(k).difference(string_set(bins@)),
            old(self).v1().bins_disjoint() ==> final(self).v1().bins_disjoint(),
            old(self).v2().bins_disjoint() ==> final(self).v2().bins_disjoint(),
    {
        let ghost orig = *old(self);
        let ghost idk = package.spec_id();
        let ghost binset = string_set(bins@);
        let id = package.package_id();
        self.v1.mark_installed(id, bins);
        self.v2.mark_installed(id, bins, version_req, opts, target, rustc);
        proof {
            if orig.v1().has_key(idk) {
                assert(orig.v2().has_key(idk));
                assert(orig.v1().bins_of(idk) == orig.v2().bins_of(idk));
            } else {
                assert(!orig.v2().has_key(idk));
            }
            assert(self.v1().bins_of(idk) == self.v2().bins_of(idk));
            assert forall|k: PackageIdKey| #[trigger] self.v1().has_key(k) implies self.v2(
            ).has_key(k) && self.v1().bins_of(k) == self.v2().bins_of(k) by {
                if k != idk {
                    assert(orig.v1().has_key(k) && survives(orig.v1().bins_of(k), binset));
                    assert(orig.v2().has_key(k));
                    assert(orig.v1().bins_of(k) == orig.v2().bins_of(k));
                    assert(self.v2().has_key(k));
                    assert(self.v2().info_of(k) == crate::current::with_bins(
                        orig.v2().info_of(k),
                        orig.v2().bins_of(k).difference(binset),
                    ));
                }
            }
            assert forall|k: PackageIdKey| #[trigger] self.v2().has_key(k) implies self.v1(
            ).has_key(k) by {
                if k != idk {
                    assert(orig.v2().has_key(k) && survives(orig.v2().bins_of(k), binset));
                    assert(orig.v1().has_key(k));
                    assert(orig.v1().bins_of(k) == orig.v2().bins_of(k));
                }
            }
        }
    }

    /// Removes binaries from an identity in both records within one
    /// operation. The identity must be tracked.
    pub fn remove(&mut self, pkg_id: &PackageId, bins: &Vec<String>)
        requires
            old(self).wf(),
            old(self).v1().has_key(pkg_id@),
        ensures
            final(self).wf(),
            survives(old(self).v1().bins_of(pkg_id@), string_set(bins@)) ==> final(self).v1().has_key(pkg_id@) && final(self).v1().bins_of(pkg_id@) == old(self).v1().bins_of(pkg_id@).difference(string_set(bins@)),
            !survives(old(self).v1().bins_of(pkg_id@), string_set(bins@)) ==> !final(self).v1().has_key(pkg_id@),
            forall|k: PackageIdKey|
                k != pkg_id@ ==> ((#[trigger] final(self).v1().has_key(k) <==> old(self).v1().has_key(k)) && (final(self).v1().has_key(k) ==> final(self).v1().bins_of(k)
                    == old(self).v1().bins_of(k))),
            old(self).v1().bins_disjoint() ==> final(self).v1().bins_disjoint(),
            old(self).v2().bins_disjoint() ==> final(self).v2().bins_disjoint(),
    {
        let ghost orig = *old(self);
        let ghost idk = pkg_id@;
        let ghost binset = string_set(bins@);
        proof {
            assert(orig.v2().has_key(idk));
            assert(orig.v1().bins_of(idk) == orig.v2().bins_of(idk));
        }
        self.v1.remove(pkg_id, bins);
        self.v2.remove(pkg_id, bins);
        proof {
            assert forall|k: PackageIdKey| #[trigger] self.v1().has_key(k) implies self.v2(
            ).has_key(k) && self.v1().bins_of(k) == self.v2().bins_of(k) by {
                if k == idk {
                    assert(survives(orig.v1().bins_of(idk), binset));
                    assert(self.v2().info_of(idk) == crate::current::with_bins(
                        orig.v2().info_of(idk),
                        orig.v2().bins_of(idk).difference(binset),
                    ));
                } else {
                    assert(orig.v1().has_key(k));
                    assert(orig.v2().has_key(k));
                    assert(orig.v1().bins_of(k) == orig.v2().bins_of(k));
                    assert(self.v2().has_key(k));
                    assert(self.v2().info_of(k) == orig.v2().info_of(k));
                }
            }
            assert forall|k: PackageIdKey| #[trigger] self.v2().has_key(k) implies self.v1(
            ).has_key(k) by {
                if k == idk {
                    assert(survives(orig.v2().bins_of(idk), binset));
                } else {
                    assert(orig.v2().has_key(k));
                    assert(orig.v1().has_key(k));
                }
            }
        }
    }

    /// Decides whether the candidate must be built or is already satisfied.
    /// `dst_files` names the files present in the destination directory;
    /// `suffix` is the platform executable suffix. Returns the freshness and
    /// every duplicate found, or the conflict when a duplicate is owned by a
    /// differently-named package (or untracked) and force was not given.
    #[verifier::rlimit(100)]
    pub fn check_upgrade(
        &self,
        dst_files: &Vec<String>,
        pkg: &Package,
        force: bool,
        opts: &CompileOptions,
        target: &String,
        suffix: &String,
    ) -> (r: Result<(Freshness, Vec<(String, Option<PackageId>)>), ConflictError>)
        requires
            self.wf(),
        ensures
            ({
                let present = string_set(dst_files@);
                let all = exe_name_set(pkg.spec_targets(), opts.filter@, suffix@);
                let ds = match r {
                    Ok((f, d)) => d,
                    Err(e) => e.duplicates,
                };
                let dv = dups_view(ds@);
                // the duplicates: exactly the candidate's executables present
                // in the destination, each with its recorded owner
                &&& views(ds@.map_values(|d: (String, Option<PackageId>)| d.0)).to_set()
                    == all.intersect(present)
                &&& forall|m: int|
                    0 <= m < ds@.len() ==> owner_ok(
                        self.v2()@,
                        (#[trigger] ds@[m]).0@,
                        dup_view(ds@[m]).1,
                    )
                // the decision
                &&& (match r {
                    Ok((f, d)) => {
                        &&& (force || dups_view(d@).len() == 0) ==> f == Freshness::Dirty
                        &&& (!force && dups_view(d@).len() > 0) ==> !some_conflict(
                            dups_view(d@),
                            pkg.spec_id().name,
                        ) && (f == Freshness::Fresh <==> !(pkg.spec_id().source is Path)
                            && all_up_to_date(
                            dups_view(d@),
                            self.v2()@,
                            pkg.spec_id(),
                            string_set(opts.features@),
                            opts.all_features,
                            opts.no_default_features,
                            opts.profile@,
                            target@,
                            all,
                        ))
                    },
                    Err(e) => !force && dups_view(e.duplicates@).len() > 0 && some_conflict(
                        dups_view(e.duplicates@),
                        pkg.spec_id().name,
                    ),
                })
            }),
    {
        let exes = exe_names(pkg, &opts.filter, suffix);
        let duplicates = self.find_duplicates(dst_files, &exes);
        if force || duplicates.len() == 0 {
            return Ok((Freshness::Dirty, duplicates));
        }
        let mut conflict = false;
        let mut m: usize = 0;
        while m < duplicates.len()
            invariant
                m <= duplicates@.len(),
                conflict ==> some_conflict(dups_view(duplicates@), pkg.spec_id().name),
                !conflict ==> (forall|j: int|
                    0 <= j < m ==> !dup_conflicts(
                        #[trigger] dups_view(duplicates@)[j],
                        pkg.spec_id().name,
                    )),
            decreases duplicates@.len() - m,
        {
            match &duplicates[m].1 {
                None => {
                    proof {
                        assert(dup_conflicts(dups_view(duplicates@)[m as int], pkg.spec_id().name));
                    }
                    conflict = true;
                },
                Some(o) => {
                    if !str_eq(o.name(), pkg.name()) {
                        proof {
                            assert(dup_conflicts(
                                dups_view(duplicates@)[m as int],
                                pkg.spec_id().name,
                            ));
                        }
                        conflict = true;
                    } else {
                        proof {
                            assert(!dup_conflicts(
                                dups_view(duplicates@)[m as int],
                                pkg.spec_id().name,
                            ));
                        }
                    }
                },
            }
            m = m + 1;
        }
        if conflict {
            return Err(ConflictError { duplicates });
        }
        if pkg.package_id().source_id().is_path() {
            return Ok((Freshness::Dirty, duplicates));
        }
        let mut fresh = true;
        let mut m: usize = 0;
        while m < duplicates.len()
            invariant
                self.wf(),
                m <= duplicates@.len(),
                forall|j: int|
                    0 <= j < duplicates@.len() ==> !dup_conflicts(
                        #[trigger] dups_view(duplicates@)[j],
                        pkg.spec_id().name,
                    ),
                forall|j: int|
                    0 <= j < duplicates@.len() ==> (match (#[trigger] duplicates@[j]).1 {
                        Some(o) => self.v2().has_key(o@),
                        None => true,
                    }),
                views(exes@).to_set() == exe_name_set(pkg.spec_targets(), opts.filter@, suffix@),
                fresh ==> (forall|j: int|
                    0 <= j < m ==> ((#[trigger] dups_view(duplicates@)[j]).1 matches Some(o)
                        && o.version == pkg.spec_id().version && o.source == pkg.spec_id().source
                        && source_precise(o.source) == source_precise(pkg.spec_id().source)
                        && info_up_to_date(
                        self.v2()@[crate::current::v2v_index(self.v2()@, o)].1,
                        string_set(opts.features@),
                        opts.all_features,
                        opts.no_default_features,
                        opts.profile@,
                        target@,
                        exe_name_set(pkg.spec_targets(), opts.filter@, suffix@),
                    ))),
                !fresh ==> !all_up_to_date(
                    dups_view(duplicates@),
                    self.v2()@,
                    pkg.spec_id(),
                    string_set(opts.features@),
                    opts.all_features,
                    opts.no_default_features,
                    opts.profile@,
                    target@,
                    exe_name_set(pkg.spec_targets(), opts.filter@, suffix@),
                ),
            decreases duplicates@.len() - m,
        {
            match &duplicates[m].1 {
                None => {
                    proof {
                        assert(dup_conflicts(dups_view(duplicates@)[m as int], pkg.spec_id().name));
                        assert(false);
                    }
                },
                Some(o) => {
                    let same = o.version().eq_version(pkg.version()) && o.source_id().eq_source(
                        pkg.package_id().source_id(),
                    ) && o.source_id().precise_equal(pkg.package_id().source_id());
                    if !same {
                        proof {
                            assert((dups_view(duplicates@)[m as int]).1 == Some(o@));
                        }
                        fresh = false;
                    } else {
                        match self.v2.get(o) {
                            Some(info) => {
                                if !info.is_up_to_date(opts, target, &exes) {
                                    proof {
                                        assert((dups_view(duplicates@)[m as int]).1 == Some(o@));
                                        assert(self.v2().info_of(o@) == self.v2()@[
                                            crate::current::v2v_index(self.v2()@, o@)
                                        ].1);
                                    }
                                    fresh = false;
                                } else {
                                    proof {
                                        assert((dups_view(duplicates@)[m as int]).1 == Some(o@));
                                        assert(self.v2().info_of(o@) == self.v2()@[
                                            crate::current::v2v_index(self.v2()@, o@)
                                        ].1);
                                    }
                                }
                            },
                            None => {
                                proof {
                                    assert(false);
                                }
                                fresh = false;
                            },
                        }
                    }
                },
            }
            m = m + 1;
        }
        if fresh {
            Ok((Freshness::Fresh, duplicates))
        } else {
            Ok((Freshness::Dirty, duplicates))
        }
    }

    /// The candidate executables that already exist in the destination, each
    /// with the identity the current record says owns it.
    #[verifier::rlimit(60)]
    fn find_duplicates(&self, dst_files: &Vec<String>, exes: &Vec<String>) -> (r: Vec<
        (String, Option<PackageId>),
    >)
        requires
            sorted_strictly(views(exes@)),
        ensures
            views(r@.map_values(|d: (String, Option<PackageId>)| d.0)).to_set() == views(
                exes@,
            ).to_set().intersect(string_set(dst_files@)),
            forall|m: int|
                0 <= m < r@.len() ==> owner_ok(
                    self.v2()@,
                    (#[trigger] r@[m]).0@,
                    dup_view(r@[m]).1,
                ),
            forall|m: int|
                0 <= m < r@.len() ==> (match (#[trigger] r@[m]).1 {
                    Some(o) => self.v2().has_key(o@),
                    None => true,
                }),
    {
        let mut out: Vec<(String, Option<PackageId>)> = Vec::new();
        let ghost present = string_set(dst_files@);
        let ghost mut srcj: Seq<int> = Seq::empty();
        let mut i: usize = 0;
        while i < exes.len()
            invariant
                i <= exes@.len(),
                sorted_strictly(views(exes@)),
                present == string_set(dst_files@),
                views(out@.map_values(|d: (String, Option<PackageId>)| d.0)).to_set() == views(
                    exes@.take(i as int),
                ).to_set().intersect(present),
                srcj.len() == out@.len(),
                forall|m: int| #![trigger srcj[m]]
                    0 <= m < out@.len() ==> 0 <= srcj[m] < i && out@[m].0@ == views(exes@)[srcj[m]]
                        && owner_ok(self.v2()@, out@[m].0@, dup_view(out@[m]).1) && (match out@[
                        m
                    ].1 {
                        Some(o) => self.v2().has_key(o@),
                        None => true,
                    }),
            decreases exes@.len() - i,
        {
            proof {
                assert(views(exes@.take(i + 1)) =~= views(exes@.take(i as int)).push(
                    views(exes@)[i as int],
                ));
                Seq::lemma_push_to_set_commute(views(exes@.take(i as int)), views(exes@)[i as int]);
            }
            if contains_string(dst_files, &exes[i]) {
                let owner = match self.v2.package_for_bin(&exes[i]) {
                    Some(p) => {
                        proof {
                            let w = choose|w: int| #![trigger self.v2()@[w]]
                                0 <= w < self.v2()@.len() && self.v2()@[w].0 == p@ && self.v2()@[
                                    w
                                ].1.bins.contains(exes@[i as int]@) && (forall|j: int|
                                    0 <= j < w ==> !(#[trigger] self.v2()@[j]).1.bins.contains(
                                        exes@[i as int]@,
                                    ));
                            assert(self.v2().keys()[w] == self.v2()@[w].0);
                            assert(self.v2().has_key(p@));
                        }
                        Some(p.clone())
                    },
                    None => None,
                };
                let ghost ow = dup_view((exes@[i as int], owner)).1;
                let ghost old_srcj = srcj;
                let ghost prev = out@;
                out.push((exes[i].clone(), owner));
                proof {
                    srcj = srcj.push(i as int);
                    assert(forall|m: int| 0 <= m < prev.len() ==> out@[m] == prev[m]);
                    assert(out@[out@.len() - 1].0@ == views(exes@)[i as int]);
                    assert(dup_view(out@[out@.len() - 1]).1 == ow);
                    assert(owner_ok(self.v2()@, out@[out@.len() - 1].0@, ow));
                    assert forall|m: int| #![trigger srcj[m]]
                        0 <= m < out@.len() implies 0 <= srcj[m] < i + 1 && out@[m].0@ == views(
                        exes@,
                    )[srcj[m]] && owner_ok(self.v2()@, out@[m].0@, dup_view(out@[m]).1) && (
                    match out@[m].1 {
                        Some(o) => self.v2().has_key(o@),
                        None => true,
                    }) by {
                        if m < prev.len() {
                            assert(out@[m] == prev[m]);
                            assert(srcj[m] == old_srcj[m]);
                        } else {
                            assert(srcj[m] == i as int);
                        }
                    }
                    assert(views(out@.map_values(|d: (String, Option<PackageId>)| d.0)) =~= views(
                        prev.map_values(|d: (String, Option<PackageId>)| d.0),
                    ).push(views(exes@)[i as int]));
                    Seq::lemma_push_to_set_commute(
                        views(prev.map_values(|d: (String, Option<PackageId>)| d.0)),
                        views(exes@)[i as int],
                    );
                    assert(views(out@.map_values(|d: (String, Option<PackageId>)| d.0)).to_set()
                        =~= views(exes@.take(i + 1)).to_set().intersect(present));
                }
            } else {
                proof {
                    assert(!present.contains(views(exes@)[i as int]));
                    assert(views(out@.map_values(|d: (String, Option<PackageId>)| d.0)).to_set()
                        =~= views(exes@.take(i + 1)).to_set().intersect(present));
                }
            }
            i = i + 1;
        }
        proof {
            assert(exes@.take(exes@.len() as int) =~= exes@);
            assert forall|m: int|
                0 <= m < out@.len() implies owner_ok(
                self.v2()@,
                (#[trigger] out@[m]).0@,
                dup_view(out@[m]).1,
            ) && (match out@[m].1 {
                Some(o) => self.v2().has_key(o@),
                None => true,
            }) by {
                let j = srcj[m];
                assert(out@[m].0@ == views(exes@)[j]);
                assert(owner_ok(self.v2()@, out@[m].0@, dup_view(out@[m]).1));
            }
        }
        out
    }
}

} // verus!
