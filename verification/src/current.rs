use crate::compile::{feature_set, CompileOptions};
use crate::ident::{opt_view, PackageId, PackageIdKey};
use crate::listing::{survives, CrateListingV1};
use crate::text::{contains_string, string_set, string_set_eq, str_eq, views};
use vstd::prelude::*;

verus! {

/// What the current format records of one installation.
pub ghost struct InstallInfoKey {
    pub version_req: Option<Seq<char>>,
    pub bins: Set<Seq<char>>,
    pub features: Set<Seq<char>>,
    pub all_features: bool,
    pub no_default_features: bool,
    pub profile: Seq<char>,
    pub target: Option<Seq<char>>,
    pub rustc: Option<Seq<char>>,
}

/// The settings an installation was made with: the owned binaries plus the
/// build-configuration snapshot a later request is compared against. A
/// `None` target or toolchain means unknown, as when migrated from the
/// legacy format.
#[derive(Debug)]
pub struct InstallInfo {
    pub version_req: Option<String>,
    pub bins: Vec<String>,
    pub features: Vec<String>,
    pub all_features: bool,
    pub no_default_features: bool,
    pub profile: String,
    pub target: Option<String>,
    pub rustc: Option<String>,
}

impl View for InstallInfo {
    type V = InstallInfoKey;

    open spec fn view(&self) -> InstallInfoKey {
        InstallInfoKey {
            version_req: opt_view(self.version_req),
            bins: string_set(self.bins@),
            features: string_set(self.features@),
            all_features: self.all_features,
            no_default_features: self.no_default_features,
            profile: self.profile@,
            target: opt_view(self.target),
            rustc: opt_view(self.rustc),
        }
    }
}

/// The same record with its binary set replaced.
pub open spec fn with_bins(i: InstallInfoKey, b: Set<Seq<char>>) -> InstallInfoKey {
    InstallInfoKey { bins: b, ..i }
}

/// The record a legacy entry migrates to: only the binaries are known.
pub open spec fn from_v1_key(bins: Set<Seq<char>>) -> InstallInfoKey {
    InstallInfoKey {
        version_req: None,
        bins,
        features: Set::empty(),
        all_features: false,
        no_default_features: false,
        profile: "release"@,
        target: None,
        rustc: None,
    }
}

/// Whether a recorded installation already satisfies a request: same feature
/// set, same flags, same profile, same target where one was recorded, and the
/// same executables.
pub open spec fn info_up_to_date(
    i: InstallInfoKey,
    features: Set<Seq<char>>,
    all_features: bool,
    no_default_features: bool,
    profile: Seq<char>,
    target: Seq<char>,
    exes: Set<Seq<char>>,
) -> bool {
    i.features == features && i.all_features == all_features && i.no_default_features
        == no_default_features && i.profile == profile && (i.target is None || i.target == Some(
        target,
    )) && i.bins == exes
}

fn clone_opt_string(o: &Option<String>) -> (r: Option<String>)
    ensures
        r == *o,
{
    match o {
        Some(s) => Some(s.clone()),
        None => None,
    }
}

impl InstallInfo {
    /// The record a legacy entry migrates to.
    pub fn from_v1(bins: Vec<String>) -> (r: InstallInfo)
        ensures
            r@ == from_v1_key(string_set(bins@)),
    {
        let r = InstallInfo {
            version_req: None,
            bins,
            features: Vec::new(),
            all_features: false,
            no_default_features: false,
            profile: "release".to_owned(),
            target: None,
            rustc: None,
        };
        proof {
            assert(string_set(r.features@) =~= Set::<Seq<char>>::empty());
        }
        r
    }

    fn clone_with_bins(&self, bins: Vec<String>) -> (r: InstallInfo)
        ensures
            r@ == with_bins(self@, string_set(bins@)),
    {
        InstallInfo {
            version_req: clone_opt_string(&self.version_req),
            bins,
            features: crate::listing::clone_string_vec(&self.features),
            all_features: self.all_features,
            no_default_features: self.no_default_features,
            profile: self.profile.clone(),
            target: clone_opt_string(&self.target),
            rustc: clone_opt_string(&self.rustc),
        }
    }

    /// Whether this installation is up to date for the given request. This
    /// does not compare package, origin or version: the caller does that.
    pub fn is_up_to_date(&self, opts: &CompileOptions, target: &String, exes: &Vec<String>) -> (r:
        bool)
        ensures
            r == info_up_to_date(
                self@,
                string_set(opts.features@),
                opts.all_features,
                opts.no_default_features,
                opts.profile@,
                target@,
                string_set(exes@),
            ),
    {
        string_set_eq(&self.features, &opts.features) && self.all_features == opts.all_features
            && self.no_default_features == opts.no_default_features && str_eq(
            &self.profile,
            &opts.profile,
        ) && (match &self.target {
            None => true,
            Some(t) => str_eq(t, target),
        }) && string_set_eq(&self.bins, exes)
    }
}

/// The tracking record in the current on-disk format: each installed
/// identity with the settings it was installed under.
#[derive(Debug)]
pub struct CrateListingV2 {
    entries: Vec<(PackageId, InstallInfo)>,
}

/// The abstract content of a current record, in entry order.
pub open spec fn v2_view(es: Seq<(PackageId, InstallInfo)>) -> Seq<(PackageIdKey, InstallInfoKey)> {
    es.map_values(|e: (PackageId, InstallInfo)| (e.0@, e.1@))
}

/// Whether the view sequence holds the key.
pub open spec fn v2v_has(v: Seq<(PackageIdKey, InstallInfoKey)>, k: PackageIdKey) -> bool {
    exists|m: int| 0 <= m < v.len() && (#[trigger] v[m]).0 == k
}

pub open spec fn v2v_index(v: Seq<(PackageIdKey, InstallInfoKey)>, k: PackageIdKey) -> int {
    choose|m: int| 0 <= m < v.len() && (#[trigger] v[m]).0 == k
}

/// The record the reconcile pass produces: the legacy record's identities in
/// order, each with its legacy binaries, keeping the old settings of an
/// identity the current record already tracked and defaults for a new one.
pub open spec fn sync_spec(
    v2: Seq<(PackageIdKey, InstallInfoKey)>,
    v1: Seq<(PackageIdKey, Seq<Seq<char>>)>,
) -> Seq<(PackageIdKey, InstallInfoKey)> {
    Seq::new(
        v1.len(),
        |j: int|
            (
                v1[j].0,
                if v2v_has(v2, v1[j].0) {
                    with_bins(v2[v2v_index(v2, v1[j].0)].1, v1[j].1.to_set())
                } else {
                    from_v1_key(v1[j].1.to_set())
                },
            ),
    )
}

/// Reconciling twice against one legacy record gives what reconciling once
/// gives: the pass is idempotent.
pub proof fn lemma_sync_idempotent(
    v2: Seq<(PackageIdKey, InstallInfoKey)>,
    v1: Seq<(PackageIdKey, Seq<Seq<char>>)>,
)
    requires
        forall|i: int, j: int| #![trigger v1[i], v1[j]]
            0 <= i < j < v1.len() ==> v1[i].0 != v1[j].0,
    ensures
        sync_spec(sync_spec(v2, v1), v1) == sync_spec(v2, v1),
{
    let s = sync_spec(v2, v1);
    let s2 = sync_spec(s, v1);
    assert forall|j: int| 0 <= j < v1.len() implies s2[j] == s[j] by {
        assert(s[j].0 == v1[j].0);
        assert(v2v_has(s, v1[j].0));
        let w = v2v_index(s, v1[j].0);
        assert(0 <= w < s.len() && s[w].0 == v1[j].0);
        if w != j {
            assert(s[w].0 == v1[w].0);
            if w < j {
                assert(v1[w].0 != v1[j].0);
            } else {
                assert(v1[j].0 != v1[w].0);
            }
            assert(false);
        }
        assert(s[j].1.bins == v1[j].1.to_set());
        assert(with_bins(s[j].1, v1[j].1.to_set()) == s[j].1);
    }
    assert(s2 =~= s);
}

impl View for CrateListingV2 {
    type V = Seq<(PackageIdKey, InstallInfoKey)>;

    closed spec fn view(&self) -> Seq<(PackageIdKey, InstallInfoKey)> {
        v2_view(self.entries@)
    }
}

impl CrateListingV2 {
    /// The identity keys held, in entry order.
    pub open spec fn keys(&self) -> Seq<PackageIdKey> {
        self@.map_values(|e: (PackageIdKey, InstallInfoKey)| e.0)
    }

    /// Each identity is tracked at most once.
    pub open spec fn wf(&self) -> bool {
        forall|i: int, j: int| #![trigger self.keys()[i], self.keys()[j]]
            0 <= i < j < self.keys().len() ==> self.keys()[i] != self.keys()[j]
    }

    pub open spec fn has_key(&self, k: PackageIdKey) -> bool {
        v2v_has(self@, k)
    }

    pub open spec fn index_of(&self, k: PackageIdKey) -> int {
        v2v_index(self@, k)
    }

    /// The settings recorded for the identity.
    pub open spec fn info_of(&self, k: PackageIdKey) -> InstallInfoKey {
        self@[self.index_of(k)].1
    }

    /// The set of binary names the identity owns.
    pub open spec fn bins_of(&self, k: PackageIdKey) -> Set<Seq<char>> {
        self.info_of(k).bins
    }

    /// No binary name is owned by two identities.
    pub open spec fn bins_disjoint(&self) -> bool {
        forall|i: int, j: int, b: Seq<char>|
            0 <= i < j < self@.len() ==> !(#[trigger] self@[i].1.bins.contains(b)
                && #[trigger] self@[j].1.bins.contains(b))
    }

    /// Bridges one raw entry to its view.
    proof fn lemma_raw(&self, i: int)
        requires
            0 <= i < self.entries@.len(),
        ensures
            self@.len() == self.entries@.len(),
            self.keys().len() == self.entries@.len(),
            self.keys()[i] == self.entries@[i].0@,
            self@[i].1 == self.entries@[i].1@,
            self@[i].0 == self.entries@[i].0@,
    {
        assert(self@[i] == (self.entries@[i].0@, self.entries@[i].1@));
        assert(self.keys()[i] == self@[i].0);
    }

    /// In a well-formed record an index holding a key is the key's index.
    proof fn lemma_index_is(&self, k: PackageIdKey, i: int)
        requires
            self.wf(),
            0 <= i < self.keys().len(),
            self.keys()[i] == k,
        ensures
            self.has_key(k),
            self.index_of(k) == i,
    {
        assert(self@[i].0 == self.keys()[i]);
        assert(v2v_has(self@, k));
        let w = self.index_of(k);
        assert(0 <= w < self@.len() && self@[w].0 == k);
        assert(self.keys()[w] == self@[w].0);
        if w < i {
            assert(self.keys()[w] != self.keys()[i]);
        }
        if i < w {
            assert(self.keys()[i] != self.keys()[w]);
        }
    }

    pub fn new() -> (r: CrateListingV2)
        ensures
            r.wf(),
            r@.len() == 0,
            forall|k: PackageIdKey| !r.has_key(k),
    {
        CrateListingV2 { entries: Vec::new() }
    }

    /// Builds a record from parsed entries; refuses a list that tracks one
    /// identity twice.
    pub fn from_entries(entries: Vec<(PackageId, InstallInfo)>) -> (r: Option<CrateListingV2>)
        ensures
            match r {
                Some(l) => l@ == v2_view(entries@) && l.wf(),
                None => !(forall|i: int, j: int|
                    0 <= i < j < entries@.len() ==> entries@[i].0@ != entries@[j].0@),
            },
    {
        let mut i: usize = 0;
        while i < entries.len()
            invariant
                i <= entries@.len(),
                forall|p: int, q: int| 0 <= p < q < i ==> entries@[p].0@ != entries@[q].0@,
            decreases entries@.len() - i,
        {
            let mut j: usize = 0;
            while j < i
                invariant
                    j <= i < entries@.len(),
                    forall|p: int| 0 <= p < j ==> entries@[p].0@ != entries@[i as int].0@,
                decreases i - j,
            {
                if entries[j].0.eq_id(&entries[i].0) {
                    return None;
                }
                j = j + 1;
            }
            i = i + 1;
        }
        let r = CrateListingV2 { entries };
        proof {
            assert forall|i: int, j: int| #![trigger r.keys()[i], r.keys()[j]]
                0 <= i < j < r.keys().len() implies r.keys()[i] != r.keys()[j] by {
                r.lemma_raw(i);
                r.lemma_raw(j);
            }
        }
        Some(r)
    }

    /// The tracked entries, each identity with its recorded settings.
    pub fn entries(&self) -> (r: &Vec<(PackageId, InstallInfo)>)
        ensures
            v2_view(r@) == self@,
    {
        &self.entries
    }

    /// The position of the identity's entry, if it is tracked.
    #[verifier::loop_isolation(false)]
    fn find_index(&self, id: &PackageId) -> (r: Option<usize>)
        requires
            self.wf(),
        ensures
            match r {
                Some(i) => i < self.keys().len() && self.keys()[i as int] == id@
                    && self.index_of(id@) == i as int,
                None => !self.has_key(id@),
            },
    {
        let mut i: usize = 0;
        while i < self.entries.len()
            invariant
                i <= self.keys().len(),
                forall|j: int| 0 <= j < i ==> self.keys()[j] != id@,
            decreases self.entries@.len() - i,
        {
            proof {
                self.lemma_raw(i as int);
            }
            if self.entries[i].0.eq_id(id) {
                proof {
                    self.lemma_index_is(id@, i as int);
                }
                return Some(i);
            }
            i = i + 1;
        }
        proof {
            if self.has_key(id@) {
                let w = self.index_of(id@);
                assert(self@[w].0 == id@);
                self.lemma_raw(w);
                assert(self.keys()[w] == id@);
                assert(false);
            }
        }
        None
    }

    /// The settings recorded for the identity, if it is tracked.
    pub fn get(&self, id: &PackageId) -> (r: Option<&InstallInfo>)
        requires
            self.wf(),
        ensures
            match r {
                Some(info) => self.has_key(id@) && info@ == self.info_of(id@),
                None => !self.has_key(id@),
            },
    {
        match self.find_index(id) {
            Some(i) => {
                proof {
                    self.lemma_raw(i as int);
                }
                Some(&self.entries[i].1)
            },
            None => None,
        }
    }

    /// The first tracked identity owning the given binary name, if any.
    pub fn package_for_bin(&self, bin: &String) -> (r: Option<&PackageId>)
        ensures
            match r {
                Some(p) => exists|m: int| #![trigger self@[m]]
                    0 <= m < self@.len() && self@[m].0 == p@ && self@[m].1.bins.contains(bin@) && (
                    forall|j: int| 0 <= j < m ==> !(#[trigger] self@[j]).1.bins.contains(bin@)),
                None => forall|m: int|
                    0 <= m < self@.len() ==> !(#[trigger] self@[m]).1.bins.contains(bin@),
            },
    {
        let mut i: usize = 0;
        while i < self.entries.len()
            invariant
                i <= self.entries@.len(),
                forall|j: int| 0 <= j < i ==> !(#[trigger] self@[j]).1.bins.contains(bin@),
            decreases self.entries@.len() - i,
        {
            proof {
                self.lemma_raw(i as int);
            }
            if contains_string(&self.entries[i].1.bins, bin) {
                proof {
                    assert(self@[i as int].1.bins.contains(bin@));
                }
                return Some(&self.entries[i].0);
            }
            i = i + 1;
        }
        proof {
            assert(self@.len() == self.entries@.len());
        }
        None
    }

    /// Overwrites this record to the reconciled form: the legacy record's
    /// identities with the legacy binaries, old settings kept for an identity
    /// already tracked here, defaults for a new one.
    #[verifier::rlimit(60)]
    pub fn sync_v1(&mut self, v1: &CrateListingV1)
        requires
            old(self).wf(),
            v1.wf(),
        ensures
            final(self).wf(),
            final(self)@ == sync_spec(old(self)@, v1@),
    {
        let ghost orig = *old(self);
        let ghost spec_out = sync_spec(orig@, v1@);
        let ve = v1.entries();
        let mut out: Vec<(PackageId, InstallInfo)> = Vec::new();
        let mut j: usize = 0;
        while j < ve.len()
            invariant
                *self == orig,
                orig.wf(),
                v1.wf(),
                j <= ve@.len(),
                crate::listing::v1_view(ve@) == v1@,
                spec_out == sync_spec(orig@, v1@),
                out@.len() == j,
                forall|m: int| 0 <= m < j ==> v2_view(out@)[m] == #[trigger] spec_out[m],
            decreases ve@.len() - j,
        {
            proof {
                assert(crate::listing::v1_view(ve@)[j as int] == (
                    ve@[j as int].0@,
                    views(ve@[j as int].1@),
                ));
                assert(v1@[j as int].0 == ve@[j as int].0@);
                assert(v1@[j as int].1 == views(ve@[j as int].1@));
                assert(v1@[j as int].1.to_set() == string_set(ve@[j as int].1@));
            }
            let bins = crate::listing::clone_string_vec(&ve[j].1);
            let ghost prev = out@;
            match self.find_index(&ve[j].0) {
                Some(m) => {
                    proof {
                        self.lemma_raw(m as int);
                        assert(v2v_has(orig@, v1@[j as int].0));
                        assert(v2v_index(orig@, v1@[j as int].0) == m as int);
                    }
                    let info = self.entries[m].1.clone_with_bins(bins);
                    out.push((ve[j].0.clone(), info));
                },
                None => {
                    out.push((ve[j].0.clone(), InstallInfo::from_v1(bins)));
                },
            }
            proof {
                assert(forall|m: int|
                    0 <= m < prev.len() ==> v2_view(out@)[m] == v2_view(prev)[m]);
                assert(v2_view(out@)[j as int] == (out@[j as int].0@, out@[j as int].1@));
                assert(v2_view(out@)[j as int] == spec_out[j as int]);
            }
            j = j + 1;
        }
        self.entries = out;
        proof {
            let fin = *self;
            assert(fin@ =~= spec_out);
            assert forall|i: int, j2: int| #![trigger fin.keys()[i], fin.keys()[j2]]
                0 <= i < j2 < fin.keys().len() implies fin.keys()[i] != fin.keys()[j2] by {
                assert(fin.keys()[i] == fin@[i].0 && fin.keys()[j2] == fin@[j2].0);
                assert(fin@[i].0 == v1@[i].0 && fin@[j2].0 == v1@[j2].0);
                assert(v1.keys()[i] == v1@[i].0 && v1.keys()[j2] == v1@[j2].0);
            }
        }
    }
}

} // verus!

verus! {

impl CrateListingV2 {
    /// Records an installation: every other identity loses the new binaries,
    /// an identity left with no binary is pruned, and `id`'s entry is written
    /// with the merged binaries and the request's full settings snapshot.
    #[verifier::rlimit(60)]
    pub fn mark_installed(
        &mut self,
        id: &PackageId,
        bins: &Vec<String>,
        version_req: Option<String>,
        opts: &CompileOptions,
        target: &String,
        rustc: &String,
    )
        requires
            old(self).wf(),
        ensures
            final(self).wf(),
            final(self).has_key(id@),
            final(self).info_of(id@) == (InstallInfoKey {
                version_req: opt_view(version_req),
                bins: (if old(self).has_key(id@) {
                    old(self).bins_of(id@).union(string_set(bins@))
                } else {
                    string_set(bins@)
                }),
                features: string_set(opts.features@),
                all_features: opts.all_features,
                no_default_features: opts.no_default_features,
                profile: opts.profile@,
                target: Some(target@),
                rustc: Some(rustc@),
            }),
            forall|k: PackageIdKey|
                k != id@ ==> (#[trigger] final(self).has_key(k) <==> old(self).has_key(k)
                    && survives(old(self).bins_of(k), string_set(bins@))),
            forall|k: PackageIdKey|
                k != id@ && #[trigger] final(self).has_key(k) ==> final(self).info_of(k)
                    == with_bins(
                    old(self).info_of(k),
                    old(self).bins_of(k).difference(string_set(bins@)),
                ),
            old(self).bins_disjoint() ==> final(self).bins_disjoint(),
    {
        let ghost orig = *old(self);
        let ghost binset = string_set(bins@);
        proof {
            assert(orig.keys().len() == orig.entries@.len());
            assert forall|p: int, q: int| #![trigger orig.entries@[p], orig.entries@[q]]
                0 <= p < q < orig.entries@.len() implies orig.entries@[p].0@
                != orig.entries@[q].0@ by {
                orig.lemma_raw(p);
                orig.lemma_raw(q);
                assert(orig.keys()[p] != orig.keys()[q]);
            }
        }
        let (out, merged0, found, w) = strip_entries_v2(&self.entries, id, bins);
        let mut out = out;
        let mut merged = merged0;
        proof {
            if found {
                orig.lemma_raw(w@.2);
                orig.lemma_index_is(id@, w@.2);
                assert(orig.has_key(id@));
                assert(string_set(merged@) == orig.bins_of(id@));
            } else {
                if orig.has_key(id@) {
                    let j = orig.index_of(id@);
                    orig.lemma_raw(j);
                    assert(orig.entries@[j].0@ == id@);
                    assert(false);
                }
            }
            assert(found == orig.has_key(id@));
        }
        let ghost had = orig.has_key(id@);
        let ghost pre_merge = merged@;
        crate::listing::append_strings(&mut merged, bins);
        proof {
            if !had {
                assert(views(pre_merge).len() == 0);
                assert forall|b: Seq<char>| !(string_set(pre_merge).contains(b)) by {}
                assert(string_set(merged@) =~= binset);
            } else {
                assert(string_set(merged@) == orig.bins_of(id@).union(binset));
            }
        }
        let info = InstallInfo {
            version_req: clone_opt_string(&version_req),
            bins: merged,
            features: feature_set(&opts.features),
            all_features: opts.all_features,
            no_default_features: opts.no_default_features,
            profile: opts.profile.clone(),
            target: Some(target.clone()),
            rustc: Some(rustc.clone()),
        };
        let ghost target_info = info@;
        let ghost stripped = out@;
        out.push((id.clone(), info));
        self.entries = out;
        proof {
            assert(target_info == (InstallInfoKey {
                version_req: opt_view(version_req),
                bins: (if had {
                    orig.bins_of(id@).union(binset)
                } else {
                    binset
                }),
                features: string_set(opts.features@),
                all_features: opts.all_features,
                no_default_features: opts.no_default_features,
                profile: opts.profile@,
                target: Some(target@),
                rustc: Some(rustc@),
            }));
            assert(self.entries@.last().0@ == id@ && self.entries@.last().1@ == target_info);
            assert(forall|m: int|
                0 <= m < stripped.len() ==> self.entries@[m] == #[trigger] stripped[m]);
            self.lemma_after_mark(orig, stripped, target_info, id@, binset, w@.0, w@.1);
        }
    }

    /// What holds of the record assembled from the stripped entries plus the
    /// target's new entry.
    #[verifier::rlimit(100)]
    proof fn lemma_after_mark(
        &self,
        orig: CrateListingV2,
        stripped: Seq<(PackageId, InstallInfo)>,
        target_info: InstallInfoKey,
        id: PackageIdKey,
        binset: Set<Seq<char>>,
        src: Seq<int>,
        pos: Seq<int>,
    )
        requires
            orig.wf(),
            self.entries@.len() == stripped.len() + 1,
            forall|m: int| 0 <= m < stripped.len() ==> self.entries@[m] == #[trigger] stripped[m],
            self.entries@.last().0@ == id,
            self.entries@.last().1@ == target_info,
            src.len() == stripped.len(),
            forall|m: int| #![trigger src[m]]
                0 <= m < stripped.len() ==> 0 <= src[m] < orig.entries@.len() && stripped[m].0@
                    == orig.entries@[src[m]].0@ && orig.entries@[src[m]].0@ != id
                    && stripped[m].1@ == with_bins(
                    orig.entries@[src[m]].1@,
                    orig.entries@[src[m]].1@.bins.difference(binset),
                ) && survives(orig.entries@[src[m]].1@.bins, binset),
            forall|m: int, n: int| #![trigger src[m], src[n]]
                0 <= m < n < src.len() ==> src[m] < src[n],
            pos.len() == orig.entries@.len(),
            forall|j: int| #![trigger pos[j]]
                0 <= j < orig.entries@.len() && orig.entries@[j].0@ != id && survives(
                    orig.entries@[j].1@.bins,
                    binset,
                ) ==> 0 <= pos[j] < stripped.len() && stripped[pos[j]].0@ == orig.entries@[j].0@
                    && stripped[pos[j]].1@ == with_bins(
                    orig.entries@[j].1@,
                    orig.entries@[j].1@.bins.difference(binset),
                ),
        ensures
            self.wf(),
            self.has_key(id),
            self.info_of(id) == target_info,
            forall|k: PackageIdKey|
                k != id ==> (#[trigger] self.has_key(k) <==> orig.has_key(k) && survives(
                    orig.bins_of(k),
                    binset,
                )),
            forall|k: PackageIdKey|
                k != id && #[trigger] self.has_key(k) ==> self.info_of(k) == with_bins(
                    orig.info_of(k),
                    orig.bins_of(k).difference(binset),
                ),
            orig.bins_disjoint() && target_info.bins == (if orig.has_key(id) {
                orig.bins_of(id).union(binset)
            } else {
                binset
            }) ==> self.bins_disjoint(),
    {
        let fin = *self;
        let last = stripped.len() as int;
        assert forall|m: int|
            0 <= m < fin.entries@.len() implies fin.keys()[m] == (
        #[trigger] fin.entries@[m]).0@ && fin@[m].1 == fin.entries@[m].1@ by {
            fin.lemma_raw(m);
        }
        assert forall|j: int| 0 <= j < orig.entries@.len() implies orig.keys()[j] == (
        #[trigger] orig.entries@[j]).0@ && orig@[j].1 == orig.entries@[j].1@ by {
            orig.lemma_raw(j);
        }
        assert(orig.keys().len() == orig.entries@.len());
        assert(fin.keys()[last] == id);
        assert forall|m: int, n: int| #![trigger fin.keys()[m], fin.keys()[n]]
            0 <= m < n < fin.keys().len() implies fin.keys()[m] != fin.keys()[n] by {
            assert(fin.entries@[m] == stripped[m]);
            if n < last {
                assert(fin.entries@[n] == stripped[n]);
                assert(0 <= src[m] < orig.entries@.len());
                assert(0 <= src[n] < orig.entries@.len());
                assert(src[m] < src[n]);
                assert(orig.entries@[src[m]].0@ != orig.entries@[src[n]].0@);
            } else {
                assert(stripped[m].0@ == orig.entries@[src[m]].0@);
                assert(orig.entries@[src[m]].0@ != id);
            }
        }
        assert(fin.wf());
        fin.lemma_index_is(id, last);
        assert(fin.info_of(id) == target_info);
        assert forall|k: PackageIdKey|
            k != id implies (#[trigger] fin.has_key(k) <==> orig.has_key(k) && survives(
            orig.bins_of(k),
            binset,
        )) by {
            if fin.has_key(k) {
                let m = fin.index_of(k);
                assert(0 <= m < fin@.len() && fin@[m].0 == k);
                assert(fin.keys()[m] == k);
                assert(m < last);
                assert(fin.entries@[m] == stripped[m]);
                let j = src[m];
                assert(stripped[m].0@ == orig.entries@[j].0@);
                orig.lemma_index_is(k, j);
                assert(orig.info_of(k) == orig.entries@[j].1@);
                assert(survives(orig.bins_of(k), binset));
            }
            if orig.has_key(k) && survives(orig.bins_of(k), binset) {
                let j = orig.index_of(k);
                assert(0 <= j < orig@.len() && orig@[j].0 == k);
                assert(orig.keys()[j] == k);
                assert(orig.info_of(k) == orig.entries@[j].1@);
                let m = pos[j];
                assert(0 <= m < stripped.len() && stripped[m].0@ == orig.entries@[j].0@);
                assert(fin.entries@[m] == stripped[m]);
                assert(fin.keys()[m] == k);
                fin.lemma_index_is(k, m);
                assert(fin.has_key(k));
            }
        }
        assert forall|k: PackageIdKey|
            k != id && #[trigger] fin.has_key(k) implies fin.info_of(k) == with_bins(
            orig.info_of(k),
            orig.bins_of(k).difference(binset),
        ) by {
            let m = fin.index_of(k);
            assert(0 <= m < fin@.len() && fin@[m].0 == k);
            assert(fin.keys()[m] == k);
            assert(m < last);
            fin.lemma_index_is(k, m);
            assert(fin.entries@[m] == stripped[m]);
            assert(fin.info_of(k) == stripped[m].1@);
            let j = src[m];
            assert(stripped[m].0@ == orig.entries@[j].0@);
            orig.lemma_index_is(k, j);
            assert(orig.info_of(k) == orig.entries@[j].1@);
        }
        if orig.bins_disjoint() && target_info.bins == (if orig.has_key(id) {
            orig.bins_of(id).union(binset)
        } else {
            binset
        }) {
            assert forall|m: int, n: int, b: Seq<char>|
                0 <= m < n < fin@.len() implies !(#[trigger] fin@[m].1.bins.contains(b)
                && #[trigger] fin@[n].1.bins.contains(b)) by {
                if fin@[m].1.bins.contains(b) && fin@[n].1.bins.contains(b) {
                    assert(fin@[m].1 == stripped[m].1@);
                    assert(stripped[m].1@.bins == orig.entries@[src[m]].1@.bins.difference(
                        binset,
                    ));
                    assert(orig@[src[m]].1.bins.contains(b));
                    assert(!binset.contains(b));
                    if n < last {
                        assert(fin@[n].1 == stripped[n].1@);
                        assert(orig@[src[n]].1.bins.contains(b));
                        assert(src[m] < src[n]);
                        assert(false);
                    } else {
                        assert(fin@[n].1 == target_info);
                        if orig.has_key(id) {
                            let j = orig.index_of(id);
                            assert(0 <= j < orig@.len() && orig@[j].0 == id);
                            assert(orig.keys()[j] == orig@[j].0);
                            assert(orig.bins_of(id) == orig@[j].1.bins);
                            assert(orig@[j].1.bins.contains(b));
                            assert(orig.entries@[src[m]].0@ != id);
                            assert(orig.keys()[src[m]] != orig.keys()[j]);
                            assert(src[m] != j);
                            if src[m] < j {
                                assert(false);
                            } else {
                                assert(false);
                            }
                        } else {
                            assert(target_info.bins == binset);
                            assert(false);
                        }
                    }
                }
            }
        }
    }

    /// Takes `bins` away from `id`'s entry, dropping the entry when nothing
    /// is left; every other identity is untouched. The identity must be
    /// tracked: requesting removal for an untracked identity is a caller
    /// error, not a recoverable condition.
    #[verifier::rlimit(60)]
    pub fn remove(&mut self, id: &PackageId, bins: &Vec<String>)
        requires
            old(self).wf(),
            old(self).has_key(id@),
        ensures
            final(self).wf(),
            survives(old(self).bins_of(id@), string_set(bins@)) ==> final(self).has_key(id@)
                && final(self).info_of(id@) == with_bins(
                old(self).info_of(id@),
                old(self).bins_of(id@).difference(string_set(bins@)),
            ),
            !survives(old(self).bins_of(id@), string_set(bins@)) ==> !final(self).has_key(id@),
            forall|k: PackageIdKey|
                k != id@ ==> ((#[trigger] final(self).has_key(k) <==> old(self).has_key(k)) && (
                final(self).has_key(k) ==> final(self).info_of(k) == old(self).info_of(k))),
            old(self).bins_disjoint() ==> final(self).bins_disjoint(),
    {
        let ghost orig = *old(self);
        let ghost binset = string_set(bins@);
        let i = match self.find_index(id) {
            Some(i) => i,
            None => {
                proof {
                    assert(false);
                }
                0
            },
        };
        proof {
            orig.lemma_raw(i as int);
            assert(orig.index_of(id@) == i as int);
            assert(orig.info_of(id@) == orig.entries@[i as int].1@);
        }
        let (kept_id, old_info) = self.entries.remove(i);
        let nb = crate::listing::remove_all(&old_info.bins, bins);
        proof {
            assert(string_set(nb@) == orig.bins_of(id@).difference(binset));
        }
        if nb.len() > 0 {
            let ghost nbv = nb@;
            let new_info = old_info.clone_with_bins(nb);
            let ghost new_key = new_info@;
            self.entries.insert(i, (kept_id, new_info));
            proof {
                assert(string_set(nbv).contains(views(nbv)[0]));
                assert(survives(orig.bins_of(id@), binset));
                let fin = *self;
                assert(fin.entries@.len() == orig.entries@.len());
                assert forall|m: int|
                    0 <= m < fin.entries@.len() implies #[trigger] fin.keys()[m]
                    == orig.keys()[m] by {
                    fin.lemma_raw(m);
                    orig.lemma_raw(m);
                    if m != i as int {
                        assert(fin.entries@[m] == orig.entries@[m]);
                    } else {
                        assert(fin.entries@[m].0 == kept_id);
                        assert(kept_id@ == orig.entries@[i as int].0@);
                    }
                }
                assert(fin.wf());
                fin.lemma_raw(i as int);
                fin.lemma_index_is(id@, i as int);
                assert(fin.info_of(id@) == new_key);
                assert(new_key == with_bins(orig.info_of(id@), orig.bins_of(id@).difference(
                    binset,
                )));
                assert forall|k: PackageIdKey|
                    k != id@ implies ((#[trigger] fin.has_key(k) <==> orig.has_key(k)) && (
                fin.has_key(k) ==> fin.info_of(k) == orig.info_of(k))) by {
                    if fin.has_key(k) {
                        let m = fin.index_of(k);
                        assert(0 <= m < fin@.len() && fin@[m].0 == k);
                        assert(fin.keys()[m] == k);
                        assert(orig.keys()[m] == k);
                        orig.lemma_index_is(k, m);
                        fin.lemma_index_is(k, m);
                        assert(m != i as int);
                        fin.lemma_raw(m);
                        orig.lemma_raw(m);
                        assert(fin.entries@[m] == orig.entries@[m]);
                    }
                    if orig.has_key(k) {
                        let m = orig.index_of(k);
                        assert(0 <= m < orig@.len() && orig@[m].0 == k);
                        assert(orig.keys()[m] == k);
                        assert(fin.keys()[m] == k);
                        fin.lemma_index_is(k, m);
                    }
                }
                if orig.bins_disjoint() {
                    assert forall|m: int| #![trigger fin@[m]]
                        0 <= m < fin@.len() implies fin@[m].1.bins.subset_of(
                        orig@[m].1.bins,
                    ) by {
                        fin.lemma_raw(m);
                        orig.lemma_raw(m);
                        if m != i as int {
                            assert(fin.entries@[m] == orig.entries@[m]);
                        } else {
                            assert(fin@[m].1 == new_key);
                            assert(orig.info_of(id@) == orig@[m].1);
                        }
                    }
                    assert forall|m: int, n: int, b: Seq<char>|
                        0 <= m < n < fin@.len() implies !(#[trigger] fin@[m].1.bins.contains(b)
                        && #[trigger] fin@[n].1.bins.contains(b)) by {
                        if fin@[m].1.bins.contains(b) && fin@[n].1.bins.contains(b) {
                            assert(orig@[m].1.bins.contains(b));
                            assert(orig@[n].1.bins.contains(b));
                        }
                    }
                }
            }
        } else {
            proof {
                if survives(orig.bins_of(id@), binset) {
                    let bb = choose|bb: Seq<char>|
                        orig.bins_of(id@).contains(bb) && !binset.contains(bb);
                    assert(orig.bins_of(id@).difference(binset).contains(bb));
                    assert(string_set(nb@).contains(bb));
                    assert(views(nb@).len() == 0);
                    assert(false);
                }
                let fin = *self;
                assert(fin.entries@ == orig.entries@.remove(i as int));
                assert(fin.entries@.len() == orig.entries@.len() - 1);
                assert forall|m: int|
                    0 <= m < fin.entries@.len() implies #[trigger] fin.keys()[m] == (if m
                    < i as int {
                    orig.keys()[m]
                } else {
                    orig.keys()[m + 1]
                }) by {
                    fin.lemma_raw(m);
                    if m < i as int {
                        orig.lemma_raw(m);
                        assert(fin.entries@[m] == orig.entries@[m]);
                    } else {
                        orig.lemma_raw(m + 1);
                        assert(fin.entries@[m] == orig.entries@[m + 1]);
                    }
                }
                assert forall|m: int, n: int| #![trigger fin.keys()[m], fin.keys()[n]]
                    0 <= m < n < fin.keys().len() implies fin.keys()[m] != fin.keys()[n] by {
                    if n < i as int {
                        assert(orig.keys()[m] != orig.keys()[n]);
                    } else if m < i as int {
                        assert(orig.keys()[m] != orig.keys()[n + 1]);
                    } else {
                        assert(orig.keys()[m + 1] != orig.keys()[n + 1]);
                    }
                }
                assert(fin.wf());
                if fin.has_key(id@) {
                    let m = fin.index_of(id@);
                    assert(0 <= m < fin@.len() && fin@[m].0 == id@);
                    assert(fin.keys()[m] == id@);
                    if m < i as int {
                        assert(orig.keys()[m] == id@);
                        orig.lemma_index_is(id@, m);
                        assert(false);
                    } else {
                        assert(orig.keys()[m + 1] == id@);
                        orig.lemma_index_is(id@, m + 1);
                        assert(false);
                    }
                }
                assert forall|k: PackageIdKey|
                    k != id@ implies ((#[trigger] fin.has_key(k) <==> orig.has_key(k)) && (
                fin.has_key(k) ==> fin.info_of(k) == orig.info_of(k))) by {
                    if fin.has_key(k) {
                        let m = fin.index_of(k);
                        assert(0 <= m < fin@.len() && fin@[m].0 == k);
                        assert(fin.keys()[m] == k);
                        fin.lemma_index_is(k, m);
                        fin.lemma_raw(m);
                        let j = if m < i as int {
                            m
                        } else {
                            m + 1
                        };
                        orig.lemma_index_is(k, j);
                        orig.lemma_raw(j);
                        assert(fin.entries@[m] == orig.entries@[j]);
                    }
                    if orig.has_key(k) {
                        let j = orig.index_of(k);
                        assert(0 <= j < orig@.len() && orig@[j].0 == k);
                        assert(orig.keys()[j] == k);
                        assert(j != i as int);
                        let m = if j < i as int {
                            j
                        } else {
                            j - 1
                        };
                        assert(fin.keys()[m] == k);
                        fin.lemma_index_is(k, m);
                    }
                }
                if orig.bins_disjoint() {
                    assert forall|m: int| #![trigger fin@[m]]
                        0 <= m < fin@.len() implies fin@[m].1 == orig@[(if m < i as int {
                        m
                    } else {
                        m + 1
                    })].1 by {
                        fin.lemma_raw(m);
                        if m < i as int {
                            orig.lemma_raw(m);
                            assert(fin.entries@[m] == orig.entries@[m]);
                        } else {
                            orig.lemma_raw(m + 1);
                            assert(fin.entries@[m] == orig.entries@[m + 1]);
                        }
                    }
                    assert forall|m: int, n: int, b: Seq<char>|
                        0 <= m < n < fin@.len() implies !(#[trigger] fin@[m].1.bins.contains(b)
                        && #[trigger] fin@[n].1.bins.contains(b)) by {
                        if fin@[m].1.bins.contains(b) && fin@[n].1.bins.contains(b) {
                            let jm = if m < i as int {
                                m
                            } else {
                                m + 1
                            };
                            let jn = if n < i as int {
                                n
                            } else {
                                n + 1
                            };
                            assert(fin@[m].1 == orig@[jm].1);
                            assert(fin@[n].1 == orig@[jn].1);
                            assert(orig@[jm].1.bins.contains(b));
                            assert(orig@[jn].1.bins.contains(b));
                            assert(jm < jn);
                        }
                    }
                }
            }
        }
    }
}

/// Strips `bins` from every entry but `id`'s, drops entries left with no
/// binary, and hands back `id`'s own old binaries separately. Settings other
/// than the binaries are kept as they were.
#[verifier::rlimit(100)]
fn strip_entries_v2(entries: &Vec<(PackageId, InstallInfo)>, id: &PackageId, bins: &Vec<String>) -> (r:
    (Vec<(PackageId, InstallInfo)>, Vec<String>, bool, Ghost<(Seq<int>, Seq<int>, int)>))
    requires
        forall|i: int, j: int| #![trigger entries@[i], entries@[j]]
            0 <= i < j < entries@.len() ==> entries@[i].0@ != entries@[j].0@,
    ensures
        r.3@.0.len() == r.0@.len(),
        forall|m: int| #![trigger r.3@.0[m]]
            0 <= m < r.0@.len() ==> 0 <= r.3@.0[m] < entries@.len() && r.0@[m].0@
                == entries@[r.3@.0[m]].0@ && entries@[r.3@.0[m]].0@ != id@ && r.0@[m].1@
                == with_bins(
                entries@[r.3@.0[m]].1@,
                entries@[r.3@.0[m]].1@.bins.difference(string_set(bins@)),
            ) && survives(entries@[r.3@.0[m]].1@.bins, string_set(bins@)),
        forall|m: int, n: int| #![trigger r.3@.0[m], r.3@.0[n]]
            0 <= m < n < r.3@.0.len() ==> r.3@.0[m] < r.3@.0[n],
        r.3@.1.len() == entries@.len(),
        forall|j: int| #![trigger r.3@.1[j]]
            0 <= j < entries@.len() && entries@[j].0@ != id@ && survives(
                entries@[j].1@.bins,
                string_set(bins@),
            ) ==> 0 <= r.3@.1[j] < r.0@.len() && r.0@[r.3@.1[j]].0@ == entries@[j].0@
                && r.0@[r.3@.1[j]].1@ == with_bins(
                entries@[j].1@,
                entries@[j].1@.bins.difference(string_set(bins@)),
            ),
        r.2 ==> 0 <= r.3@.2 < entries@.len() && entries@[r.3@.2].0@ == id@ && string_set(r.1@)
            == entries@[r.3@.2].1@.bins,
        !r.2 ==> (forall|j: int| 0 <= j < entries@.len() ==> (#[trigger] entries@[j]).0@ != id@),
        !r.2 ==> r.1@.len() == 0,
{
    let ghost binset = string_set(bins@);
    let mut out: Vec<(PackageId, InstallInfo)> = Vec::new();
    let mut tb: Vec<String> = Vec::new();
    let mut found = false;
    let ghost mut src: Seq<int> = Seq::empty();
    let ghost mut pos: Seq<int> = Seq::empty();
    let ghost mut fidx: int = 0;
    let mut i: usize = 0;
    while i < entries.len()
        invariant
            i <= entries@.len(),
            binset == string_set(bins@),
            forall|p: int, q: int| #![trigger entries@[p], entries@[q]]
                0 <= p < q < entries@.len() ==> entries@[p].0@ != entries@[q].0@,
            src.len() == out@.len(),
            forall|m: int| #![trigger src[m]]
                0 <= m < out@.len() ==> 0 <= src[m] < entries@.len() && out@[m].0@
                    == entries@[src[m]].0@ && entries@[src[m]].0@ != id@ && out@[m].1@
                    == with_bins(
                    entries@[src[m]].1@,
                    entries@[src[m]].1@.bins.difference(binset),
                ) && survives(entries@[src[m]].1@.bins, binset),
            forall|m: int| 0 <= m < src.len() ==> #[trigger] src[m] < i,
            forall|m: int, n: int| #![trigger src[m], src[n]]
                0 <= m < n < src.len() ==> src[m] < src[n],
            pos.len() == i,
            forall|j: int| #![trigger pos[j]]
                0 <= j < i && entries@[j].0@ != id@ && survives(entries@[j].1@.bins, binset)
                    ==> 0 <= pos[j] < out@.len() && out@[pos[j]].0@ == entries@[j].0@
                        && out@[pos[j]].1@ == with_bins(
                        entries@[j].1@,
                        entries@[j].1@.bins.difference(binset),
                    ),
            found ==> 0 <= fidx < i && entries@[fidx].0@ == id@ && string_set(tb@)
                == entries@[fidx].1@.bins,
            !found ==> (forall|j: int| 0 <= j < i ==> (#[trigger] entries@[j]).0@ != id@),
            !found ==> tb@.len() == 0,
        decreases entries@.len() - i,
    {
        if entries[i].0.eq_id(id) {
            tb = crate::listing::clone_string_vec(&entries[i].1.bins);
            found = true;
            proof {
                fidx = i as int;
                pos = pos.push(-1);
            }
        } else {
            let nb = crate::listing::remove_all(&entries[i].1.bins, bins);
            proof {
                assert(string_set(nb@) == entries@[i as int].1@.bins.difference(binset));
            }
            if nb.len() > 0 {
                let ghost prev = out@;
                proof {
                    assert(string_set(nb@).contains(views(nb@)[0]));
                    assert(survives(entries@[i as int].1@.bins, binset));
                }
                let ghost old_src = src;
                let ghost old_pos = pos;
                let info = entries[i].1.clone_with_bins(nb);
                out.push((entries[i].0.clone(), info));
                proof {
                    src = src.push(i as int);
                    pos = pos.push(out@.len() - 1);
                    assert(forall|m: int| 0 <= m < prev.len() ==> out@[m] == prev[m]);
                    assert(out@[out@.len() - 1].0@ == entries@[i as int].0@);
                    assert(out@[out@.len() - 1].1@ == with_bins(
                        entries@[i as int].1@,
                        entries@[i as int].1@.bins.difference(binset),
                    ));
                    assert forall|m: int| #![trigger src[m]]
                        0 <= m < out@.len() implies 0 <= src[m] < entries@.len() && out@[m].0@
                        == entries@[src[m]].0@ && entries@[src[m]].0@ != id@ && out@[m].1@
                        == with_bins(
                        entries@[src[m]].1@,
                        entries@[src[m]].1@.bins.difference(binset),
                    ) && survives(entries@[src[m]].1@.bins, binset) by {
                        if m < prev.len() {
                            assert(out@[m] == prev[m]);
                            assert(src[m] == old_src[m]);
                        } else {
                            assert(src[m] == i as int);
                        }
                    }
                    assert forall|m: int, n: int| #![trigger src[m], src[n]]
                        0 <= m < n < src.len() implies src[m] < src[n] by {
                        if n < src.len() - 1 {
                            assert(src[m] == old_src[m] && src[n] == old_src[n]);
                        } else {
                            assert(src[m] == old_src[m] && old_src[m] < i);
                        }
                    }
                    assert forall|j: int| #![trigger pos[j]]
                        0 <= j < i + 1 && entries@[j].0@ != id@ && survives(
                            entries@[j].1@.bins,
                            binset,
                        ) implies 0 <= pos[j] < out@.len() && out@[pos[j]].0@ == entries@[j].0@
                        && out@[pos[j]].1@ == with_bins(
                        entries@[j].1@,
                        entries@[j].1@.bins.difference(binset),
                    ) by {
                        if j < i {
                            assert(pos[j] == old_pos[j]);
                            assert(0 <= old_pos[j] < prev.len());
                            assert(out@[old_pos[j]] == prev[old_pos[j]]);
                        } else {
                            assert(pos[j] == out@.len() - 1);
                        }
                    }
                }
            } else {
                proof {
                    pos = pos.push(-1);
                    if survives(entries@[i as int].1@.bins, binset) {
                        let bb = choose|bb: Seq<char>|
                            entries@[i as int].1@.bins.contains(bb) && !binset.contains(bb);
                        assert(entries@[i as int].1@.bins.difference(binset).contains(bb));
                        assert(string_set(nb@).contains(bb));
                        assert(views(nb@).len() == 0);
                        assert(false);
                    }
                }
            }
        }
        i = i + 1;
    }
    (out, tb, found, Ghost((src, pos, fidx)))
}

} // verus!
