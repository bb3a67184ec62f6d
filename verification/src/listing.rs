use crate::ident::{PackageId, PackageIdKey};
use crate::text::{contains_string, string_set, views};
use vstd::prelude::*;

verus! {

/// Whether anything of `bs` is left after taking `removed` away.
pub open spec fn survives(bs: Set<Seq<char>>, removed: Set<Seq<char>>) -> bool {
    exists|b: Seq<char>| bs.contains(b) && !removed.contains(b)
}

/// Copies the strings of `b` whose views are not in `remove`.
pub(crate) fn remove_all(b: &Vec<String>, remove: &Vec<String>) -> (r: Vec<String>)
    ensures
        string_set(r@) == string_set(b@).difference(string_set(remove@)),
{
    let mut out: Vec<String> = Vec::new();
    let mut i: usize = 0;
    while i < b.len()
        invariant
            i <= b@.len(),
            string_set(out@) == string_set(b@.take(i as int)).difference(string_set(remove@)),
        decreases b@.len() - i,
    {
        let keep = !contains_string(remove, &b[i]);
        proof {
            assert(views(b@.take(i + 1)) =~= views(b@.take(i as int)).push(b@[i as int]@));
            Seq::lemma_push_to_set_commute(views(b@.take(i as int)), b@[i as int]@);
        }
        if keep {
            let ghost prev = out@;
            out.push(b[i].clone());
            proof {
                assert(views(out@) =~= views(prev).push(b@[i as int]@));
                Seq::lemma_push_to_set_commute(views(prev), b@[i as int]@);
                assert(string_set(out@) =~= string_set(b@.take(i + 1)).difference(
                    string_set(remove@),
                ));
            }
        } else {
            proof {
                assert(string_set(out@) =~= string_set(b@.take(i + 1)).difference(
                    string_set(remove@),
                ));
            }
        }
        i = i + 1;
    }
    proof {
        assert(b@.take(b@.len() as int) =~= b@);
    }
    out
}

/// The tracking record in the older on-disk format: which binaries each
/// installed package owns. It is the single source of truth when the two
/// formats disagree.
#[derive(Debug)]
pub struct CrateListingV1 {
    entries: Vec<(PackageId, Vec<String>)>,
}

/// The abstract content of a legacy record: each tracked identity with the
/// views of the binary names it owns, in entry order.
pub open spec fn v1_view(es: Seq<(PackageId, Vec<String>)>) -> Seq<(PackageIdKey, Seq<Seq<char>>)> {
    es.map_values(|e: (PackageId, Vec<String>)| (e.0@, views(e.1@)))
}

impl View for CrateListingV1 {
    type V = Seq<(PackageIdKey, Seq<Seq<char>>)>;

    closed spec fn view(&self) -> Seq<(PackageIdKey, Seq<Seq<char>>)> {
        v1_view(self.entries@)
    }
}

impl CrateListingV1 {
    /// The identity keys held, in entry order.
    pub open spec fn keys(&self) -> Seq<PackageIdKey> {
        self@.map_values(|e: (PackageIdKey, Seq<Seq<char>>)| e.0)
    }

    /// Each identity is tracked at most once.
    pub open spec fn wf(&self) -> bool {
        forall|i: int, j: int| #![trigger self.keys()[i], self.keys()[j]]
            0 <= i < j < self.keys().len() ==> self.keys()[i] != self.keys()[j]
    }

    pub open spec fn has_key(&self, k: PackageIdKey) -> bool {
        exists|i: int| 0 <= i < self.keys().len() && #[trigger] self.keys()[i] == k
    }

    pub open spec fn index_of(&self, k: PackageIdKey) -> int {
        choose|i: int| 0 <= i < self.keys().len() && self.keys()[i] == k
    }

    /// The set of binary names the identity owns.
    pub open spec fn bins_of(&self, k: PackageIdKey) -> Set<Seq<char>> {
        self@[self.index_of(k)].1.to_set()
    }

    /// No binary name is owned by two identities.
    pub open spec fn bins_disjoint(&self) -> bool {
        forall|i: int, j: int, b: Seq<char>|
            0 <= i < j < self@.len() ==> !(#[trigger] self@[i].1.to_set().contains(b)
                && #[trigger] self@[j].1.to_set().contains(b))
    }

    /// Bridges one raw entry to its view.
    proof fn lemma_raw(&self, i: int)
        requires
            0 <= i < self.entries@.len(),
        ensures
            self@.len() == self.entries@.len(),
            self.keys().len() == self.entries@.len(),
            self.keys()[i] == self.entries@[i].0@,
            self@[i].1 == views(self.entries@[i].1@),
    {
        assert(self@[i] == (self.entries@[i].0@, views(self.entries@[i].1@)));
        assert(self.keys()[i] == self@[i].0);
    }

    /// In a well-formed record an index holding a key is the key's index.
    proof fn lemma_index_is(&self, k: PackageIdKey, i: int)
        requires
            self.wf(),
            0 <= i < self.keys().len(),
            self.keys()[i] == k,
        ensures
            self.has_key(k),
            self.index_of(k) == i,
    {
        assert(self.has_key(k));
        let w = self.index_of(k);
        assert(0 <= w < self.keys().len() && self.keys()[w] == k);
        if w < i {
            assert(self.keys()[w] != self.keys()[i]);
        }
        if i < w {
            assert(self.keys()[i] != self.keys()[w]);
        }
    }

    pub fn new() -> (r: CrateListingV1)
        ensures
            r.wf(),
            r@.len() == 0,
            forall|k: PackageIdKey| !r.has_key(k),
    {
        CrateListingV1 { entries: Vec::new() }
    }

    /// Builds a record from parsed entries; refuses a list that tracks one
    /// identity twice.
    pub fn from_entries(entries: Vec<(PackageId, Vec<String>)>) -> (r: Option<CrateListingV1>)
        ensures
            match r {
                Some(l) => l@ == v1_view(entries@) && l.wf(),
                None => !(forall|i: int, j: int|
                    0 <= i < j < entries@.len() ==> entries@[i].0@ != entries@[j].0@),
            },
    {
        let mut i: usize = 0;
        while i < entries.len()
            invariant
                i <= entries@.len(),
                forall|p: int, q: int| 0 <= p < q < i ==> entries@[p].0@ != entries@[q].0@,
            decreases entries@.len() - i,
        {
            let mut j: usize = 0;
            while j < i
                invariant
                    j <= i < entries@.len(),
                    forall|p: int| 0 <= p < j ==> entries@[p].0@ != entries@[i as int].0@,
                decreases i - j,
            {
                if entries[j].0.eq_id(&entries[i].0) {
                    return None;
                }
                j = j + 1;
            }
            i = i + 1;
        }
        Some(CrateListingV1 { entries })
    }

    /// The tracked entries, each identity with the binaries it owns.
    pub fn entries(&self) -> (r: &Vec<(PackageId, Vec<String>)>)
        ensures
            v1_view(r@) == self@,
    {
        &self.entries
    }

    /// The position of the identity's entry, if it is tracked.
    #[verifier::loop_isolation(false)]
    fn find_index(&self, id: &PackageId) -> (r: Option<usize>)
        requires
            self.wf(),
        ensures
            match r {
                Some(i) => i < self.keys().len() && self.keys()[i as int] == id@
                    && self.index_of(id@) == i as int,
                None => !self.has_key(id@),
            },
    {
        let mut i: usize = 0;
        while i < self.entries.len()
            invariant
                i <= self.keys().len(),
                forall|j: int| 0 <= j < i ==> self.keys()[j] != id@,
            decreases self.entries@.len() - i,
        {
            proof {
                self.lemma_raw(i as int);
            }
            if self.entries[i].0.eq_id(id) {
                proof {
                    self.lemma_index_is(id@, i as int);
                }
                return Some(i);
            }
            i = i + 1;
        }
        None
    }

    /// The binaries the identity owns, if it is tracked.
    pub fn get(&self, id: &PackageId) -> (r: Option<&Vec<String>>)
        requires
            self.wf(),
        ensures
            match r {
                Some(b) => self.has_key(id@) && string_set(b@) == self.bins_of(id@),
                None => !self.has_key(id@),
            },
    {
        match self.find_index(id) {
            Some(i) => Some(&self.entries[i].1),
            None => None,
        }
    }

    /// Records that `id` now owns `bins` besides whatever it already owned:
    /// every other identity loses those names, an identity left with no
    /// binary is pruned, and `id`'s entry is inserted or extended.
    #[verifier::rlimit(60)]
    pub fn mark_installed(&mut self, id: &PackageId, bins: &Vec<String>)
        requires
            old(self).wf(),
        ensures
            final(self).wf(),
            final(self).has_key(id@),
            final(self).bins_of(id@) == (if old(self).has_key(id@) {
                old(self).bins_of(id@).union(string_set(bins@))
            } else {
                string_set(bins@)
            }),
            forall|k: PackageIdKey|
                k != id@ ==> (#[trigger] final(self).has_key(k) <==> old(self).has_key(k)
                    && survives(old(self).bins_of(k), string_set(bins@))),
            forall|k: PackageIdKey|
                k != id@ && #[trigger] final(self).has_key(k) ==> final(self).bins_of(k) == old(
                    self,
                ).bins_of(k).difference(string_set(bins@)),
            old(self).bins_disjoint() ==> final(self).bins_disjoint(),
    {
        let ghost orig = *old(self);
        let ghost binset = string_set(bins@);
        proof {
            assert(orig.keys().len() == orig.entries@.len());
            assert forall|p: int, q: int| #![trigger orig.entries@[p], orig.entries@[q]]
                0 <= p < q < orig.entries@.len() implies orig.entries@[p].0@
                != orig.entries@[q].0@ by {
                orig.lemma_raw(p);
                orig.lemma_raw(q);
                assert(orig.keys()[p] != orig.keys()[q]);
            }
        }
        let (out, merged0, found, w) = strip_entries(&self.entries, id, bins);
        let mut out = out;
        let mut merged = merged0;
        proof {
            if found {
                orig.lemma_raw(w@.2);
                orig.lemma_index_is(id@, w@.2);
                assert(orig.has_key(id@));
                assert(string_set(merged@) == orig.bins_of(id@));
            } else {
                if orig.has_key(id@) {
                    let j = orig.index_of(id@);
                    orig.lemma_raw(j);
                    assert(orig.entries@[j].0@ == id@);
                    assert(false);
                }
            }
            assert(found == orig.has_key(id@));
        }
        let ghost had = orig.has_key(id@);
        let ghost pre_merge = merged@;
        append_strings(&mut merged, bins);
        proof {
            if !had {
                assert(views(pre_merge).len() == 0);
                assert forall|b: Seq<char>| !(string_set(pre_merge).contains(b)) by {}
                assert(string_set(merged@) =~= binset);
            } else {
                assert(string_set(merged@) == orig.bins_of(id@).union(binset));
            }
        }
        let ghost stripped = out@;
        let ghost merged_view = merged@;
        out.push((id.clone(), merged));
        self.entries = out;
        proof {
            assert(self.entries@.last().0@ == id@ && self.entries@.last().1@ == merged_view);
            assert(forall|m: int|
                0 <= m < stripped.len() ==> self.entries@[m] == #[trigger] stripped[m]);
            self.lemma_after_mark(orig, stripped, merged_view, id@, binset, w@.0, w@.1);
        }
    }

    /// What holds of the record assembled from the stripped entries plus the
    /// target's merged entry.
    #[verifier::rlimit(100)]
    proof fn lemma_after_mark(
        &self,
        orig: CrateListingV1,
        stripped: Seq<(PackageId, Vec<String>)>,
        merged_view: Seq<String>,
        id: PackageIdKey,
        binset: Set<Seq<char>>,
        src: Seq<int>,
        pos: Seq<int>,
    )
        requires
            orig.wf(),
            self.entries@.len() == stripped.len() + 1,
            forall|m: int| 0 <= m < stripped.len() ==> self.entries@[m] == #[trigger] stripped[m],
            self.entries@.last().0@ == id,
            self.entries@.last().1@ == merged_view,
            string_set(merged_view) == (if orig.has_key(id) {
                orig.bins_of(id).union(binset)
            } else {
                binset
            }),
            src.len() == stripped.len(),
            forall|m: int| #![trigger src[m]]
                0 <= m < stripped.len() ==> 0 <= src[m] < orig.entries@.len() && stripped[m].0@
                    == orig.entries@[src[m]].0@ && orig.entries@[src[m]].0@ != id && string_set(
                    stripped[m].1@,
                ) == string_set(orig.entries@[src[m]].1@).difference(binset) && survives(
                    string_set(orig.entries@[src[m]].1@),
                    binset,
                ),
            forall|m: int, n: int| #![trigger src[m], src[n]]
                0 <= m < n < src.len() ==> src[m] < src[n],
            pos.len() == orig.entries@.len(),
            forall|j: int| #![trigger pos[j]]
                0 <= j < orig.entries@.len() && orig.entries@[j].0@ != id && survives(
                    string_set(orig.entries@[j].1@),
                    binset,
                ) ==> 0 <= pos[j] < stripped.len() && stripped[pos[j]].0@ == orig.entries@[j].0@
                    && string_set(stripped[pos[j]].1@) == string_set(
                    orig.entries@[j].1@,
                ).difference(binset),
        ensures
            self.wf(),
            self.has_key(id),
            self.bins_of(id) == (if orig.has_key(id) {
                orig.bins_of(id).union(binset)
            } else {
                binset
            }),
            forall|k: PackageIdKey|
                k != id ==> (#[trigger] self.has_key(k) <==> orig.has_key(k) && survives(
                    orig.bins_of(k),
                    binset,
                )),
            forall|k: PackageIdKey|
                k != id && #[trigger] self.has_key(k) ==> self.bins_of(k) == orig.bins_of(
                    k,
                ).difference(binset),
            orig.bins_disjoint() ==> self.bins_disjoint(),
    {
        let fin = *self;
        let last = stripped.len() as int;
        assert forall|m: int|
            0 <= m < fin.entries@.len() implies fin.keys()[m] == (
        #[trigger] fin.entries@[m]).0@ && fin@[m].1.to_set() == string_set(
            fin.entries@[m].1@,
        ) by {
            fin.lemma_raw(m);
        }
        assert forall|j: int| 0 <= j < orig.entries@.len() implies orig.keys()[j] == (
        #[trigger] orig.entries@[j]).0@ && orig@[j].1.to_set() == string_set(
            orig.entries@[j].1@,
        ) by {
            orig.lemma_raw(j);
        }
        assert(orig.keys().len() == orig.entries@.len());
        assert(fin.keys()[last] == id);
        assert forall|m: int, n: int| #![trigger fin.keys()[m], fin.keys()[n]]
            0 <= m < n < fin.keys().len() implies fin.keys()[m] != fin.keys()[n] by {
            assert(fin.entries@[m] == stripped[m]);
            if n < last {
                assert(fin.entries@[n] == stripped[n]);
                assert(0 <= src[m] < orig.entries@.len());
                assert(0 <= src[n] < orig.entries@.len());
                assert(src[m] < src[n]);
                assert(orig.entries@[src[m]].0@ != orig.entries@[src[n]].0@);
            } else {
                assert(stripped[m].0@ == orig.entries@[src[m]].0@);
                assert(orig.entries@[src[m]].0@ != id);
            }
        }
        assert(fin.wf());
        fin.lemma_index_is(id, last);
        assert(fin.bins_of(id) == string_set(merged_view));
        assert forall|k: PackageIdKey|
            k != id implies (#[trigger] fin.has_key(k) <==> orig.has_key(k) && survives(
            orig.bins_of(k),
            binset,
        )) by {
            if fin.has_key(k) {
                let m = choose|m: int| 0 <= m < fin.keys().len() && #[trigger] fin.keys()[m] == k;
                assert(m < last);
                assert(fin.entries@[m] == stripped[m]);
                let j = src[m];
                assert(stripped[m].0@ == orig.entries@[j].0@);
                orig.lemma_index_is(k, j);
                assert(orig.bins_of(k) == string_set(orig.entries@[j].1@));
                assert(survives(orig.bins_of(k), binset));
            }
            if orig.has_key(k) && survives(orig.bins_of(k), binset) {
                let j = orig.index_of(k);
                assert(0 <= j < orig.keys().len() && orig.keys()[j] == k);
                assert(orig.bins_of(k) == string_set(orig.entries@[j].1@));
                let m = pos[j];
                assert(0 <= m < stripped.len() && stripped[m].0@ == orig.entries@[j].0@);
                assert(fin.entries@[m] == stripped[m]);
                assert(fin.keys()[m] == k);
                assert(fin.has_key(k));
            }
        }
        assert forall|k: PackageIdKey|
            k != id && #[trigger] fin.has_key(k) implies fin.bins_of(k) == orig.bins_of(
            k,
        ).difference(binset) by {
            let m = choose|m: int| 0 <= m < fin.keys().len() && #[trigger] fin.keys()[m] == k;
            assert(m < last);
            fin.lemma_index_is(k, m);
            assert(fin.entries@[m] == stripped[m]);
            assert(fin.bins_of(k) == string_set(stripped[m].1@));
            let j = src[m];
            assert(stripped[m].0@ == orig.entries@[j].0@);
            orig.lemma_index_is(k, j);
            assert(orig.bins_of(k) == string_set(orig.entries@[j].1@));
        }
        if orig.bins_disjoint() {
            assert forall|m: int, n: int, b: Seq<char>|
                0 <= m < n < fin@.len() implies !(#[trigger] fin@[m].1.to_set().contains(b)
                && #[trigger] fin@[n].1.to_set().contains(b)) by {
                if fin@[m].1.to_set().contains(b) && fin@[n].1.to_set().contains(b) {
                    assert(fin@[m].1.to_set() == string_set(stripped[m].1@));
                    assert(string_set(stripped[m].1@) == string_set(
                        orig.entries@[src[m]].1@,
                    ).difference(binset));
                    assert(orig@[src[m]].1.to_set() == string_set(orig.entries@[src[m]].1@));
                    assert(orig@[src[m]].1.to_set().contains(b));
                    assert(!binset.contains(b));
                    if n < last {
                        assert(fin@[n].1.to_set() == string_set(stripped[n].1@));
                        assert(orig@[src[n]].1.to_set().contains(b));
                        assert(src[m] < src[n]);
                        assert(false);
                    } else {
                        assert(fin@[n].1.to_set() == string_set(merged_view));
                        if orig.has_key(id) {
                            let j = orig.index_of(id);
                            assert(0 <= j < orig.keys().len() && orig.keys()[j] == id);
                            assert(orig.bins_of(id) == orig@[j].1.to_set());
                            assert(string_set(merged_view) == orig.bins_of(id).union(binset));
                            assert(orig@[j].1.to_set().contains(b));
                            assert(orig.entries@[src[m]].0@ != id);
                            assert(orig.keys()[src[m]] != orig.keys()[j]);
                            assert(src[m] != j);
                            if src[m] < j {
                                assert(false);
                            } else {
                                assert(false);
                            }
                        } else {
                            assert(string_set(merged_view) == binset);
                            assert(false);
                        }
                    }
                }
            }
        }
    }
}

/// Strips `bins` from every entry but `id`'s, drops entries left empty, and
/// hands back `id`'s own old binaries separately. The returned entries hold
/// the surviving other identities, each with its remaining binaries; the
/// ghost component maps each output entry to its source entry and each
/// surviving source entry to its output position.
#[verifier::rlimit(100)]
fn strip_entries(entries: &Vec<(PackageId, Vec<String>)>, id: &PackageId, bins: &Vec<String>) -> (r:
    (Vec<(PackageId, Vec<String>)>, Vec<String>, bool, Ghost<(Seq<int>, Seq<int>, int)>))
    requires
        forall|i: int, j: int| #![trigger entries@[i], entries@[j]]
            0 <= i < j < entries@.len() ==> entries@[i].0@ != entries@[j].0@,
    ensures
        r.3@.0.len() == r.0@.len(),
        forall|m: int| #![trigger r.3@.0[m]]
            0 <= m < r.0@.len() ==> 0 <= r.3@.0[m] < entries@.len() && r.0@[m].0@
                == entries@[r.3@.0[m]].0@ && entries@[r.3@.0[m]].0@ != id@ && string_set(
                r.0@[m].1@,
            ) == string_set(entries@[r.3@.0[m]].1@).difference(string_set(bins@)) && survives(
                string_set(entries@[r.3@.0[m]].1@),
                string_set(bins@),
            ),
        forall|m: int, n: int| #![trigger r.3@.0[m], r.3@.0[n]]
            0 <= m < n < r.3@.0.len() ==> r.3@.0[m] < r.3@.0[n],
        r.3@.1.len() == entries@.len(),
        forall|j: int| #![trigger r.3@.1[j]]
            0 <= j < entries@.len() && entries@[j].0@ != id@ && survives(
                string_set(entries@[j].1@),
                string_set(bins@),
            ) ==> 0 <= r.3@.1[j] < r.0@.len() && r.0@[r.3@.1[j]].0@ == entries@[j].0@
                && string_set(r.0@[r.3@.1[j]].1@) == string_set(entries@[j].1@).difference(
                string_set(bins@),
            ),
        r.2 ==> 0 <= r.3@.2 < entries@.len() && entries@[r.3@.2].0@ == id@ && string_set(r.1@)
            == string_set(entries@[r.3@.2].1@),
        !r.2 ==> (forall|j: int| 0 <= j < entries@.len() ==> (#[trigger] entries@[j]).0@ != id@),
        !r.2 ==> r.1@.len() == 0,
{
    let ghost binset = string_set(bins@);
    let mut out: Vec<(PackageId, Vec<String>)> = Vec::new();
    let mut tb: Vec<String> = Vec::new();
    let mut found = false;
    let ghost mut src: Seq<int> = Seq::empty();
    let ghost mut pos: Seq<int> = Seq::empty();
    let ghost mut fidx: int = 0;
    let mut i: usize = 0;
    while i < entries.len()
        invariant
            i <= entries@.len(),
            binset == string_set(bins@),
            forall|p: int, q: int| #![trigger entries@[p], entries@[q]]
                0 <= p < q < entries@.len() ==> entries@[p].0@ != entries@[q].0@,
            src.len() == out@.len(),
            forall|m: int| #![trigger src[m]]
                0 <= m < out@.len() ==> 0 <= src[m] < entries@.len() && out@[m].0@
                    == entries@[src[m]].0@ && entries@[src[m]].0@ != id@ && string_set(out@[m].1@)
                    == string_set(entries@[src[m]].1@).difference(binset) && survives(
                    string_set(entries@[src[m]].1@),
                    binset,
                ),
            forall|m: int| 0 <= m < src.len() ==> #[trigger] src[m] < i,
            forall|m: int, n: int| #![trigger src[m], src[n]]
                0 <= m < n < src.len() ==> src[m] < src[n],
            pos.len() == i,
            forall|j: int| #![trigger pos[j]]
                0 <= j < i && entries@[j].0@ != id@ && survives(string_set(entries@[j].1@), binset)
                    ==> 0 <= pos[j] < out@.len() && out@[pos[j]].0@ == entries@[j].0@
                        && string_set(out@[pos[j]].1@) == string_set(entries@[j].1@).difference(
                        binset,
                    ),
            found ==> 0 <= fidx < i && entries@[fidx].0@ == id@ && string_set(tb@) == string_set(
                entries@[fidx].1@,
            ),
            !found ==> (forall|j: int| 0 <= j < i ==> (#[trigger] entries@[j]).0@ != id@),
            !found ==> tb@.len() == 0,
        decreases entries@.len() - i,
    {
        if entries[i].0.eq_id(id) {
            tb = clone_string_vec(&entries[i].1);
            found = true;
            proof {
                fidx = i as int;
                pos = pos.push(-1);
            }
        } else {
            let nb = remove_all(&entries[i].1, bins);
            if nb.len() > 0 {
                let ghost prev = out@;
                proof {
                    assert(string_set(nb@).contains(views(nb@)[0]));
                    assert(survives(string_set(entries@[i as int].1@), binset));
                }
                let ghost old_src = src;
                let ghost old_pos = pos;
                out.push((entries[i].0.clone(), nb));
                proof {
                    src = src.push(i as int);
                    pos = pos.push(out@.len() - 1);
                    assert(forall|m: int| 0 <= m < prev.len() ==> out@[m] == prev[m]);
                    assert(out@[out@.len() - 1].0@ == entries@[i as int].0@);
                    assert(string_set(out@[out@.len() - 1].1@) == string_set(
                        entries@[i as int].1@,
                    ).difference(binset));
                    assert forall|m: int| #![trigger src[m]]
                        0 <= m < out@.len() implies 0 <= src[m] < entries@.len() && out@[m].0@
                        == entries@[src[m]].0@ && entries@[src[m]].0@ != id@ && string_set(
                        out@[m].1@,
                    ) == string_set(entries@[src[m]].1@).difference(binset) && survives(
                        string_set(entries@[src[m]].1@),
                        binset,
                    ) by {
                        if m < prev.len() {
                            assert(out@[m] == prev[m]);
                            assert(src[m] == old_src[m]);
                        } else {
                            assert(src[m] == i as int);
                        }
                    }
                    assert forall|m: int, n: int| #![trigger src[m], src[n]]
                        0 <= m < n < src.len() implies src[m] < src[n] by {
                        if n < src.len() - 1 {
                            assert(src[m] == old_src[m] && src[n] == old_src[n]);
                        } else {
                            assert(src[m] == old_src[m] && old_src[m] < i);
                        }
                    }
                    assert forall|j: int| #![trigger pos[j]]
                        0 <= j < i + 1 && entries@[j].0@ != id@ && survives(
                            string_set(entries@[j].1@),
                            binset,
                        ) implies 0 <= pos[j] < out@.len() && out@[pos[j]].0@ == entries@[j].0@
                        && string_set(out@[pos[j]].1@) == string_set(entries@[j].1@).difference(
                        binset,
                    ) by {
                        if j < i {
                            assert(pos[j] == old_pos[j]);
                            assert(0 <= old_pos[j] < prev.len());
                            assert(out@[old_pos[j]] == prev[old_pos[j]]);
                        } else {
                            assert(pos[j] == out@.len() - 1);
                        }
                    }
                }
            } else {
                proof {
                    pos = pos.push(-1);
                    if survives(string_set(entries@[i as int].1@), binset) {
                        let bb = choose|bb: Seq<char>|
                            string_set(entries@[i as int].1@).contains(bb) && !binset.contains(bb);
                        assert(string_set(entries@[i as int].1@).difference(binset).contains(bb));
                        assert(string_set(nb@).contains(bb));
                        assert(views(nb@).len() == 0);
                        assert(false);
                    }
                }
            }
        }
        i = i + 1;
    }
    (out, tb, found, Ghost((src, pos, fidx)))
}

/// Extends `dst` with clones of the strings of `src`.
#[verifier::loop_isolation(false)]
pub(crate) fn append_strings(dst: &mut Vec<String>, src: &Vec<String>)
    ensures
        string_set(final(dst)@) == string_set(old(dst)@).union(string_set(src@)),
{
    let mut b: usize = 0;
    while b < src.len()
        invariant
            b <= src@.len(),
            string_set(dst@) == string_set(old(dst)@).union(string_set(src@.take(b as int))),
        decreases src@.len() - b,
    {
        let ghost prevm = dst@;
        dst.push(src[b].clone());
        proof {
            assert(views(dst@) =~= views(prevm).push(src@[b as int]@));
            Seq::lemma_push_to_set_commute(views(prevm), src@[b as int]@);
            assert(views(src@.take(b + 1)) =~= views(src@.take(b as int)).push(src@[b as int]@));
            Seq::lemma_push_to_set_commute(views(src@.take(b as int)), src@[b as int]@);
            assert(string_set(dst@) =~= string_set(old(dst)@).union(
                string_set(src@.take(b + 1)),
            ));
        }
        b = b + 1;
    }
    proof {
        assert(src@.take(src@.len() as int) =~= src@);
    }
}

/// Copies a vector of strings, keeping each view.
pub(crate) fn clone_string_vec(v: &Vec<String>) -> (r: Vec<String>)
    ensures
        r@ == v@,
{
    let mut out: Vec<String> = Vec::new();
    let mut i: usize = 0;
    while i < v.len()
        invariant
            i <= v@.len(),
            out@ =~= v@.take(i as int),
        decreases v@.len() - i,
    {
        out.push(v[i].clone());
        proof {
            assert(out@ =~= v@.take(i + 1));
        }
        i = i + 1;
    }
    proof {
        assert(v@.take(v@.len() as int) =~= v@);
    }
    out
}

} // verus!

verus! {

impl CrateListingV1 {
    /// Takes `bins` away from `id`'s entry, dropping the entry when nothing
    /// is left; every other identity is untouched. The identity must be
    /// tracked: requesting removal for an untracked identity is a caller
    /// error, not a recoverable condition.
    #[verifier::rlimit(60)]
    pub fn remove(&mut self, id: &PackageId, bins: &Vec<String>)
        requires
            old(self).wf(),
            old(self).has_key(id@),
        ensures
            final(self).wf(),
            survives(old(self).bins_of(id@), string_set(bins@)) ==> final(self).has_key(id@)
                && final(self).bins_of(id@) == old(self).bins_of(id@).difference(
                string_set(bins@),
            ),
            !survives(old(self).bins_of(id@), string_set(bins@)) ==> !final(self).has_key(id@),
            forall|k: PackageIdKey|
                k != id@ ==> ((#[trigger] final(self).has_key(k) <==> old(self).has_key(k)) && (
                final(self).has_key(k) ==> final(self).bins_of(k) == old(self).bins_of(k))),
            old(self).bins_disjoint() ==> final(self).bins_disjoint(),
    {
        let ghost orig = *old(self);
        let ghost binset = string_set(bins@);
        let i = match self.find_index(id) {
            Some(i) => i,
            None => {
                proof {
                    assert(false);
                }
                0
            },
        };
        proof {
            orig.lemma_raw(i as int);
            assert(orig.bins_of(id@) == string_set(orig.entries@[i as int].1@));
        }
        let (kept_id, old_bins) = self.entries.remove(i);
        let nb = remove_all(&old_bins, bins);
        proof {
            assert(string_set(nb@) == orig.bins_of(id@).difference(binset));
        }
        if nb.len() > 0 {
            let ghost mid = self.entries@;
            self.entries.insert(i, (kept_id, nb));
            proof {
                assert(string_set(nb@).contains(views(nb@)[0]));
                assert(survives(orig.bins_of(id@), binset));
                let fin = *self;
                assert(fin.entries@ =~= orig.entries@.update(i as int, (kept_id, nb)));
                assert(fin.entries@.len() == orig.entries@.len());
                assert forall|m: int|
                    0 <= m < fin.entries@.len() implies #[trigger] fin.keys()[m]
                    == orig.keys()[m] by {
                    fin.lemma_raw(m);
                    orig.lemma_raw(m);
                    if m != i as int {
                        assert(fin.entries@[m] == orig.entries@[m]);
                    } else {
                        assert(fin.entries@[m].0 == kept_id);
                        assert(kept_id@ == orig.entries@[i as int].0@);
                    }
                }
                assert(fin.wf());
                fin.lemma_raw(i as int);
                fin.lemma_index_is(id@, i as int);
                assert(fin.bins_of(id@) == string_set(nb@));
                assert forall|k: PackageIdKey|
                    k != id@ implies ((#[trigger] fin.has_key(k) <==> orig.has_key(k)) && (
                fin.has_key(k) ==> fin.bins_of(k) == orig.bins_of(k))) by {
                    if fin.has_key(k) {
                        let m = choose|m: int|
                            0 <= m < fin.keys().len() && #[trigger] fin.keys()[m] == k;
                        assert(orig.keys()[m] == k);
                        assert(orig.has_key(k));
                        orig.lemma_index_is(k, m);
                        fin.lemma_index_is(k, m);
                        assert(m != i as int);
                        fin.lemma_raw(m);
                        orig.lemma_raw(m);
                        assert(fin.entries@[m] == orig.entries@[m]);
                        assert(fin.bins_of(k) == string_set(fin.entries@[m].1@));
                        assert(orig.bins_of(k) == string_set(orig.entries@[m].1@));
                    }
                    if orig.has_key(k) {
                        let m = choose|m: int|
                            0 <= m < orig.keys().len() && #[trigger] orig.keys()[m] == k;
                        assert(fin.keys()[m] == k);
                        assert(fin.has_key(k));
                    }
                }
                if orig.bins_disjoint() {
                    assert forall|m: int|
                        0 <= m < fin@.len() implies fin@[m].1.to_set().subset_of(
                        #[trigger] orig@[m].1.to_set(),
                    ) by {
                        fin.lemma_raw(m);
                        orig.lemma_raw(m);
                        if m != i as int {
                            assert(fin.entries@[m] == orig.entries@[m]);
                        } else {
                            assert(fin@[m].1.to_set() == string_set(nb@));
                            assert(orig.bins_of(id@) == orig@[m].1.to_set());
                        }
                    }
                    assert forall|m: int, n: int, b: Seq<char>|
                        0 <= m < n < fin@.len() implies !(#[trigger] fin@[m].1.to_set().contains(
                        b,
                    ) && #[trigger] fin@[n].1.to_set().contains(b)) by {
                        if fin@[m].1.to_set().contains(b) && fin@[n].1.to_set().contains(b) {
                            assert(orig@[m].1.to_set().contains(b));
                            assert(orig@[n].1.to_set().contains(b));
                        }
                    }
                }
            }
        } else {
            proof {
                if survives(orig.bins_of(id@), binset) {
                    let bb = choose|bb: Seq<char>|
                        orig.bins_of(id@).contains(bb) && !binset.contains(bb);
                    assert(orig.bins_of(id@).difference(binset).contains(bb));
                    assert(string_set(nb@).contains(bb));
                    assert(views(nb@).len() == 0);
                    assert(false);
                }
                let fin = *self;
                assert(fin.entries@ == orig.entries@.remove(i as int));
                assert(fin.entries@.len() == orig.entries@.len() - 1);
                assert forall|m: int|
                    0 <= m < fin.entries@.len() implies #[trigger] fin.keys()[m] == (if m
                    < i as int {
                    orig.keys()[m]
                } else {
                    orig.keys()[m + 1]
                }) by {
                    fin.lemma_raw(m);
                    if m < i as int {
                        orig.lemma_raw(m);
                        assert(fin.entries@[m] == orig.entries@[m]);
                    } else {
                        orig.lemma_raw(m + 1);
                        assert(fin.entries@[m] == orig.entries@[m + 1]);
                    }
                }
                assert forall|m: int, n: int| #![trigger fin.keys()[m], fin.keys()[n]]
                    0 <= m < n < fin.keys().len() implies fin.keys()[m] != fin.keys()[n] by {
                    if n < i as int {
                        assert(orig.keys()[m] != orig.keys()[n]);
                    } else if m < i as int {
                        assert(orig.keys()[m] != orig.keys()[n + 1]);
                    } else {
                        assert(orig.keys()[m + 1] != orig.keys()[n + 1]);
                    }
                }
                assert(fin.wf());
                if fin.has_key(id@) {
                    let m = choose|m: int|
                        0 <= m < fin.keys().len() && #[trigger] fin.keys()[m] == id@;
                    if m < i as int {
                        assert(orig.keys()[m] == id@);
                        orig.lemma_index_is(id@, m);
                        assert(false);
                    } else {
                        assert(orig.keys()[m + 1] == id@);
                        orig.lemma_index_is(id@, m + 1);
                        assert(false);
                    }
                }
                assert forall|k: PackageIdKey|
                    k != id@ implies ((#[trigger] fin.has_key(k) <==> orig.has_key(k)) && (
                fin.has_key(k) ==> fin.bins_of(k) == orig.bins_of(k))) by {
                    if fin.has_key(k) {
                        let m = choose|m: int|
                            0 <= m < fin.keys().len() && #[trigger] fin.keys()[m] == k;
                        fin.lemma_index_is(k, m);
                        fin.lemma_raw(m);
                        let j = if m < i as int {
                            m
                        } else {
                            m + 1
                        };
                        orig.lemma_index_is(k, j);
                        orig.lemma_raw(j);
                        assert(fin.entries@[m] == orig.entries@[j]);
                        assert(fin.bins_of(k) == string_set(fin.entries@[m].1@));
                        assert(orig.bins_of(k) == string_set(orig.entries@[j].1@));
                    }
                    if orig.has_key(k) {
                        let j = choose|j: int|
                            0 <= j < orig.keys().len() && #[trigger] orig.keys()[j] == k;
                        orig.lemma_index_is(k, j);
                        assert(j != i as int);
                        let m = if j < i as int {
                            j
                        } else {
                            j - 1
                        };
                        assert(fin.keys()[m] == k);
                        assert(fin.has_key(k));
                    }
                }
                if orig.bins_disjoint() {
                    assert forall|m: int| #![trigger fin@[m]]
                        0 <= m < fin@.len() implies fin@[m].1 == orig@[(if m < i as int {
                        m
                    } else {
                        m + 1
                    })].1 by {
                        fin.lemma_raw(m);
                        if m < i as int {
                            orig.lemma_raw(m);
                            assert(fin.entries@[m] == orig.entries@[m]);
                        } else {
                            orig.lemma_raw(m + 1);
                            assert(fin.entries@[m] == orig.entries@[m + 1]);
                        }
                    }
                    assert forall|m: int, n: int, b: Seq<char>|
                        0 <= m < n < fin@.len() implies !(#[trigger] fin@[m].1.to_set().contains(
                        b,
                    ) && #[trigger] fin@[n].1.to_set().contains(b)) by {
                        if fin@[m].1.to_set().contains(b) && fin@[n].1.to_set().contains(b) {
                            let jm = if m < i as int {
                                m
                            } else {
                                m + 1
                            };
                            let jn = if n < i as int {
                                n
                            } else {
                                n + 1
                            };
                            assert(fin@[m].1 == orig@[jm].1);
                            assert(fin@[n].1 == orig@[jn].1);
                            assert(orig@[jm].1.to_set().contains(b));
                            assert(orig@[jn].1.to_set().contains(b));
                            assert(jm < jn);
                        }
                    }
                }
            }
        }
    }
}

} // verus!
