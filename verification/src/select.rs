use crate::ident::{id_le, lemma_id_le_total, lemma_id_le_transitive, PackageId, PackageIdKey,
    SourceId};
use crate::package::{Dependency, Package, PackageKey, Summary, TargetKind};
use crate::text::{sorted_names, sorted_strictly, string_set, views};
use vstd::prelude::*;

verus! {

/// Why selection found nothing to install.
#[derive(Debug, PartialEq, Eq)]
pub enum SelectionError {
    /// The requested version exists at the source only as a withdrawn
    /// release.
    Yanked { name: String, source: SourceId },
    /// No candidate satisfies the version requirement.
    NotFound { name: String, source: SourceId, version_req: String },
    /// More than one candidate is installable when none was named: every
    /// applicable candidate name, sorted.
    Ambiguous { examples: bool, names: Vec<String> },
    /// No candidate exposes a binary or an example.
    NothingInstallable,
}

/// The highest-ranked candidate: the last one that every other candidate
/// precedes in the name-then-version order. `None` exactly when there are no
/// candidates.
pub fn best_candidate(cands: &Vec<Summary>) -> (r: Option<usize>)
    ensures
        match r {
            Some(i) => i < cands@.len() && forall|j: int|
                0 <= j < cands@.len() ==> id_le((#[trigger] cands@[j])@.id, cands@[i as int]@.id),
            None => cands@.len() == 0,
        },
{
    if cands.len() == 0 {
        return None;
    }
    let mut best: usize = 0;
    let mut j: usize = 1;
    while j < cands.len()
        invariant
            best < j <= cands@.len(),
            forall|p: int| 0 <= p < j ==> id_le((#[trigger] cands@[p])@.id, cands@[best as int]@.id),
        decreases cands@.len() - j,
    {
        if cands[best].package_id().le_by_name_version(cands[j].package_id()) {
            proof {
                assert forall|p: int|
                    0 <= p < j + 1 implies id_le((#[trigger] cands@[p])@.id, cands@[j as int]@.id) by {
                    if p < j {
                        lemma_id_le_transitive(cands@[p]@.id, cands@[best as int]@.id, cands@[j as int]@.id);
                    } else {
                        lemma_id_le_total(cands@[p]@.id, cands@[p]@.id);
                    }
                }
            }
            best = j;
        } else {
            proof {
                lemma_id_le_total(cands@[best as int]@.id, cands@[j as int]@.id);
            }
        }
        j = j + 1;
    }
    Some(best)
}

/// The failure to report when no candidate matched a requirement: the yank
/// error when the probed identity is withdrawn at the source, otherwise the
/// not-found error carrying the requirement.
pub fn no_match_error(dep: &Dependency, source: &SourceId, probe_yanked: bool) -> (r:
    SelectionError)
    ensures
        probe_yanked ==> (r matches SelectionError::Yanked { name, source: s } && name@
            == dep@.name && s@ == source@),
        !probe_yanked ==> (r matches SelectionError::NotFound { name, source: s, version_req }
            && name@ == dep@.name && s@ == source@ && version_req@ == dep@.version_req),
{
    if probe_yanked {
        SelectionError::Yanked { name: dep.name().clone(), source: source.clone() }
    } else {
        SelectionError::NotFound {
            name: dep.name().clone(),
            source: source.clone(),
            version_req: dep.version_req().clone(),
        }
    }
}

/// Whether the package declares a binary target.
pub open spec fn has_bin(p: PackageKey) -> bool {
    exists|t: int|
        0 <= t < p.manifest.targets.len() && (#[trigger] p.manifest.targets[t]).kind
            == TargetKind::Bin
}

/// Whether the package declares an example target of either kind.
pub open spec fn has_example(p: PackageKey) -> bool {
    exists|t: int|
        0 <= t < p.manifest.targets.len() && ((#[trigger] p.manifest.targets[t]).kind
            == TargetKind::ExampleBin || p.manifest.targets[t].kind == TargetKind::ExampleLib)
}

/// Which candidates apply in the round: those with a binary, or in the
/// fallback round those with an example.
pub open spec fn applicable(p: PackageKey, examples: bool) -> bool {
    if examples {
        has_example(p)
    } else {
        has_bin(p)
    }
}

/// The names of the applicable candidates.
pub open spec fn applicable_names(cands: Seq<Package>, examples: bool) -> Set<Seq<char>> {
    Set::new(
        |n: Seq<char>|
            exists|j: int|
                0 <= j < cands.len() && applicable((#[trigger] cands[j])@, examples)
                    && cands[j]@.manifest.summary.id.name == n,
    )
}

fn is_applicable(p: &Package, examples: bool) -> (r: bool)
    ensures
        r == applicable(p@, examples),
{
    let targets = p.targets();
    let mut t: usize = 0;
    while t < targets.len()
        invariant
            t <= targets@.len(),
            targets@.map_values(|x: crate::package::Target| x@) == p.spec_targets(),
            forall|q: int|
                0 <= q < t ==> !(examples && ((#[trigger] p.spec_targets()[q]).kind
                    == TargetKind::ExampleBin || p.spec_targets()[q].kind == TargetKind::ExampleLib))
                    && !(!examples && p.spec_targets()[q].kind == TargetKind::Bin),
        decreases targets@.len() - t,
    {
        let hit = if examples {
            targets[t].is_example()
        } else {
            targets[t].is_bin()
        };
        proof {
            assert(p.spec_targets()[t as int] == targets@[t as int]@);
        }
        if hit {
            return true;
        }
        t = t + 1;
    }
    false
}

/// The indices and names of the applicable candidates, in order.
#[verifier::rlimit(60)]
fn gather(cands: &Vec<Package>, examples: bool) -> (r: (Vec<usize>, Vec<String>, Ghost<Seq<int>>))
    ensures
        r.0@.len() == r.1@.len(),
        forall|m: int| #![trigger r.0@[m]]
            0 <= m < r.0@.len() ==> r.0@[m] < cands@.len() && applicable(
                cands@[r.0@[m] as int]@,
                examples,
            ) && views(r.1@)[m] == cands@[r.0@[m] as int]@.manifest.summary.id.name,
        forall|m: int, n: int| #![trigger r.0@[m], r.0@[n]]
            0 <= m < n < r.0@.len() ==> r.0@[m] < r.0@[n],
        r.2@.len() == cands@.len(),
        forall|j: int| #![trigger r.2@[j]]
            0 <= j < cands@.len() && applicable(cands@[j]@, examples) ==> 0 <= r.2@[j]
                < r.0@.len() && r.0@[r.2@[j]] == j,
        forall|j: int| #![trigger r.2@[j]]
            0 <= j < cands@.len() && !applicable(cands@[j]@, examples) ==> r.2@[j] == -1,
{
    let mut idx: Vec<usize> = Vec::new();
    let mut names: Vec<String> = Vec::new();
    let ghost mut pos: Seq<int> = Seq::empty();
    let mut j: usize = 0;
    while j < cands.len()
        invariant
            j <= cands@.len(),
            idx@.len() == names@.len(),
            forall|m: int| #![trigger idx@[m]]
                0 <= m < idx@.len() ==> idx@[m] < cands@.len() && applicable(
                    cands@[idx@[m] as int]@,
                    examples,
                ) && views(names@)[m] == cands@[idx@[m] as int]@.manifest.summary.id.name && idx@[
                    m
                ] < j,
            forall|m: int, n: int| #![trigger idx@[m], idx@[n]]
                0 <= m < n < idx@.len() ==> idx@[m] < idx@[n],
            pos.len() == j,
            forall|p: int| #![trigger pos[p]]
                0 <= p < j && applicable(cands@[p]@, examples) ==> 0 <= pos[p] < idx@.len()
                    && idx@[pos[p]] == p,
            forall|p: int| #![trigger pos[p]]
                0 <= p < j && !applicable(cands@[p]@, examples) ==> pos[p] == -1,
        decreases cands@.len() - j,
    {
        if is_applicable(&cands[j], examples) {
            let ghost prev_idx = idx@;
            let ghost prev_names = names@;
            idx.push(j);
            names.push(cands[j].name().clone());
            proof {
                pos = pos.push(idx@.len() - 1);
                assert(forall|m: int| 0 <= m < prev_idx.len() ==> idx@[m] == prev_idx[m]);
                assert(forall|m: int|
                    0 <= m < prev_names.len() ==> views(names@)[m] == views(prev_names)[m]);
                assert(views(names@)[names@.len() - 1]
                    == cands@[j as int]@.manifest.summary.id.name);
            }
        } else {
            proof {
                pos = pos.push(-1);
            }
        }
        j = j + 1;
    }
    (idx, names, Ghost(pos))
}

/// Picks the single installable candidate when no dependency was named:
/// exactly one candidate exposing a binary, or — only when none exposes a
/// binary anywhere — exactly one exposing an example. More than one in the
/// applicable round is ambiguous; none in either round leaves nothing to
/// install.
#[verifier::rlimit(60)]
pub fn pick_installable(cands: &Vec<Package>) -> (r: Result<usize, SelectionError>)
    ensures
        match r {
            Ok(i) => i < cands@.len() && ((applicable(cands@[i as int]@, false) && (forall|j: int|
                0 <= j < cands@.len() && j != i ==> !applicable((#[trigger] cands@[j])@, false)))
                || ((forall|j: int| 0 <= j < cands@.len() ==> !applicable(
                (#[trigger] cands@[j])@,
                false,
            )) && applicable(cands@[i as int]@, true) && (forall|j: int|
                0 <= j < cands@.len() && j != i ==> !applicable((#[trigger] cands@[j])@, true)))),
            Err(e) => match e {
                SelectionError::Ambiguous { examples, names } => {
                    &&& sorted_strictly(views(names@))
                    &&& string_set(names@) == applicable_names(cands@, examples)
                    &&& exists|a: int, b: int|
                        0 <= a < b < cands@.len() && applicable(#[trigger] cands@[a]@, examples)
                            && applicable(#[trigger] cands@[b]@, examples)
                    &&& examples ==> (forall|j: int|
                        0 <= j < cands@.len() ==> !applicable((#[trigger] cands@[j])@, false))
                },
                SelectionError::NothingInstallable => forall|j: int|
                    0 <= j < cands@.len() ==> !applicable((#[trigger] cands@[j])@, false)
                        && !applicable(cands@[j]@, true),
                _ => false,
            },
        },
{
    let (bidx, bnames, bw) = gather(cands, false);
    if bidx.len() == 1 {
        let i = bidx[0];
        proof {
            assert forall|j: int|
                0 <= j < cands@.len() && j != i implies !applicable(
                (#[trigger] cands@[j])@,
                false,
            ) by {
                if applicable(cands@[j]@, false) {
                    let m = bw@[j];
                    assert(bidx@[m] == j);
                    assert(m == 0);
                }
            }
        }
        return Ok(i);
    }
    if bidx.len() > 1 {
        let names = sorted_names(&bnames);
        proof {
            lemma_gathered_names(cands@, false, bidx@, bnames@, bw@);
            assert(applicable(cands@[bidx@[0] as int]@, false));
            assert(applicable(cands@[bidx@[1] as int]@, false));
            assert(bidx@[0] < bidx@[1]);
        }
        return Err(SelectionError::Ambiguous { examples: false, names });
    }
    proof {
        assert forall|j: int| 0 <= j < cands@.len() implies !applicable(
            (#[trigger] cands@[j])@,
            false,
        ) by {
            if applicable(cands@[j]@, false) {
                let m = bw@[j];
                assert(bidx@[m] == j);
            }
        }
    }
    let (eidx, enames, ew) = gather(cands, true);
    if eidx.len() == 1 {
        let i = eidx[0];
        proof {
            assert forall|j: int|
                0 <= j < cands@.len() && j != i implies !applicable(
                (#[trigger] cands@[j])@,
                true,
            ) by {
                if applicable(cands@[j]@, true) {
                    let m = ew@[j];
                    assert(eidx@[m] == j);
                    assert(m == 0);
                }
            }
        }
        return Ok(i);
    }
    if eidx.len() > 1 {
        let names = sorted_names(&enames);
        proof {
            lemma_gathered_names(cands@, true, eidx@, enames@, ew@);
            assert(applicable(cands@[eidx@[0] as int]@, true));
            assert(applicable(cands@[eidx@[1] as int]@, true));
            assert(eidx@[0] < eidx@[1]);
        }
        return Err(SelectionError::Ambiguous { examples: true, names });
    }
    proof {
        assert forall|j: int| 0 <= j < cands@.len() implies !applicable(
            (#[trigger] cands@[j])@,
            true,
        ) by {
            if applicable(cands@[j]@, true) {
                let m = ew@[j];
                assert(eidx@[m] == j);
            }
        }
    }
    Err(SelectionError::NothingInstallable)
}

/// The gathered names hold exactly the names of the applicable candidates.
proof fn lemma_gathered_names(
    cands: Seq<Package>,
    examples: bool,
    idx: Seq<usize>,
    names: Seq<String>,
    pos: Seq<int>,
)
    requires
        idx.len() == names.len(),
        forall|m: int| #![trigger idx[m]]
            0 <= m < idx.len() ==> idx[m] < cands.len() && applicable(
                cands[idx[m] as int]@,
                examples,
            ) && views(names)[m] == cands[idx[m] as int]@.manifest.summary.id.name,
        pos.len() == cands.len(),
        forall|j: int| #![trigger pos[j]]
            0 <= j < cands.len() && applicable(cands[j]@, examples) ==> 0 <= pos[j] < idx.len()
                && idx[pos[j]] == j,
    ensures
        string_set(names) == applicable_names(cands, examples),
{
    assert forall|n: Seq<char>| string_set(names).contains(n) implies applicable_names(
        cands,
        examples,
    ).contains(n) by {
        let m = choose|m: int| 0 <= m < views(names).len() && views(names)[m] == n;
        assert(idx[m] < cands.len() && applicable(cands[idx[m] as int]@, examples));
        assert(cands[idx[m] as int]@.manifest.summary.id.name == n);
    }
    assert forall|n: Seq<char>| applicable_names(cands, examples).contains(n) implies string_set(
        names,
    ).contains(n) by {
        let j = choose|j: int|
            0 <= j < cands.len() && applicable((#[trigger] cands[j])@, examples)
                && cands[j]@.manifest.summary.id.name == n;
        let m = pos[j];
        assert(idx[m] == j);
        assert(views(names)[m] == n);
    }
    assert(string_set(names) =~= applicable_names(cands, examples));
}

} // verus!
