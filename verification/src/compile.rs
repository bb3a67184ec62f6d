use crate::package::{kind_is_executable, Package, Target, TargetKey, TargetKind};
use crate::text::{sorted_names, string_set, views};
use vstd::prelude::*;

verus! {

pub ghost enum FilterRuleKey {
    All,
    Just(Seq<Seq<char>>),
}

/// Which targets of one kind a request names: every target of the kind, or a
/// list given explicitly on the request.
#[derive(Debug)]
pub enum FilterRule {
    All,
    Just(Vec<String>),
}

impl View for FilterRule {
    type V = FilterRuleKey;

    open spec fn view(&self) -> FilterRuleKey {
        match self {
            FilterRule::All => FilterRuleKey::All,
            FilterRule::Just(names) => FilterRuleKey::Just(views(names@)),
        }
    }
}

pub ghost enum FilterKey {
    Default,
    Only { all_targets: bool, bins: FilterRuleKey, examples: FilterRuleKey },
}

/// The build-target filter of an install request: the default set (the
/// binaries), or an explicit selection.
#[derive(Debug)]
pub enum CompileFilter {
    Default,
    Only { all_targets: bool, bins: FilterRule, examples: FilterRule },
}

impl View for CompileFilter {
    type V = FilterKey;

    open spec fn view(&self) -> FilterKey {
        match self {
            CompileFilter::Default => FilterKey::Default,
            CompileFilter::Only { all_targets, bins, examples } => FilterKey::Only {
                all_targets: *all_targets,
                bins: bins@,
                examples: examples@,
            },
        }
    }
}

/// The build settings of an install request, consumed read-only: the target
/// filter, the feature selection, and the requested profile name.
#[derive(Debug)]
pub struct CompileOptions {
    pub filter: CompileFilter,
    pub features: Vec<String>,
    pub all_features: bool,
    pub no_default_features: bool,
    pub profile: String,
}

/// The names of the targets of the given kind.
pub open spec fn kind_names(targets: Seq<TargetKey>, kind: TargetKind) -> Set<Seq<char>> {
    Set::new(
        |n: Seq<char>|
            exists|i: int|
                0 <= i < targets.len() && targets[i].kind == kind && targets[i].name == n,
    )
}

/// The names of the targets built as executables.
pub open spec fn executable_names(targets: Seq<TargetKey>) -> Set<Seq<char>> {
    Set::new(
        |n: Seq<char>|
            exists|i: int|
                0 <= i < targets.len() && kind_is_executable(targets[i].kind) && targets[i].name
                    == n,
    )
}

/// The target names a filter rule selects among the targets of one kind.
pub open spec fn rule_names(rule: FilterRuleKey, targets: Seq<TargetKey>, kind: TargetKind) -> Set<
    Seq<char>,
> {
    match rule {
        FilterRuleKey::All => kind_names(targets, kind),
        FilterRuleKey::Just(ns) => ns.to_set(),
    }
}

/// The executable file names a package would produce under a filter: the
/// selected target names, each with the platform executable suffix appended.
pub open spec fn exe_name_set(targets: Seq<TargetKey>, filter: FilterKey, suffix: Seq<char>) -> Set<
    Seq<char>,
> {
    let base = match filter {
        FilterKey::Default => kind_names(targets, TargetKind::Bin),
        FilterKey::Only { all_targets: true, .. } => executable_names(targets),
        FilterKey::Only { all_targets: false, bins, examples } => rule_names(
            bins,
            targets,
            TargetKind::Bin,
        ).union(rule_names(examples, targets, TargetKind::ExampleBin)),
    };
    base.map(|n: Seq<char>| n + suffix)
}

fn to_exe(name: &String, suffix: &String) -> (r: String)
    ensures
        r@ == name@ + suffix@,
{
    name.clone().concat(suffix.as_str())
}

/// Pushes `name + suffix` for every target of the given kind.
fn push_kind_exes(
    targets: &Vec<Target>,
    kind: TargetKind,
    suffix: &String,
    out: &mut Vec<String>,
)
    ensures
        string_set(final(out)@) == string_set(old(out)@).union(
            kind_names(targets@.map_values(|t: Target| t@), kind).map(|n: Seq<char>| n + suffix@),
        ),
{
    let ghost tks = targets@.map_values(|t: Target| t@);
    let ghost spec_add = kind_names(tks, kind).map(|n: Seq<char>| n + suffix@);
    let mut i: usize = 0;
    while i < targets.len()
        invariant
            i <= targets@.len(),
            tks == targets@.map_values(|t: Target| t@),
            spec_add == kind_names(tks, kind).map(|n: Seq<char>| n + suffix@),
            out@.len() >= old(out)@.len(),
            forall|m: int| 0 <= m < old(out)@.len() ==> views(out@)[m] == views(old(out)@)[m],
            forall|m: int|
                old(out)@.len() <= m < out@.len() ==> spec_add.contains(#[trigger] views(out@)[m]),
            forall|j: int|
                0 <= j < i && #[trigger] tks[j].kind == kind ==> string_set(out@).contains(
                    tks[j].name + suffix@,
                ),
        decreases targets@.len() - i,
    {
        let keep = match kind {
            TargetKind::Bin => targets[i].is_bin(),
            TargetKind::ExampleBin => targets[i].is_exe_example(),
            _ => targets[i].kind() == kind,
        };
        proof {
            assert(tks[i as int] == targets@[i as int]@);
        }
        if keep {
            let e = to_exe(targets[i].name(), suffix);
            let ghost prev = out@;
            out.push(e);
            proof {
                assert(views(out@)[out@.len() - 1] == tks[i as int].name + suffix@);
                assert(forall|m: int|
                    0 <= m < prev.len() ==> views(out@)[m] == views(prev)[m]);
                assert(kind_names(tks, kind).contains(tks[i as int].name));
                assert(spec_add.contains(views(out@)[out@.len() - 1]));
                assert forall|m: int|
                    old(out)@.len() <= m < out@.len() implies spec_add.contains(
                    #[trigger] views(out@)[m],
                ) by {
                    if m < prev.len() {
                        assert(views(out@)[m] == views(prev)[m]);
                        assert(spec_add.contains(views(prev)[m]));
                    } else {
                        assert(views(out@)[m] == tks[i as int].name + suffix@);
                    }
                }
                assert forall|j: int|
                    0 <= j < i + 1 && #[trigger] tks[j].kind == kind implies string_set(
                    out@,
                ).contains(tks[j].name + suffix@) by {
                    if j < i {
                        let m = choose|m: int|
                            0 <= m < prev.len() && views(prev)[m] == tks[j].name + suffix@;
                        assert(views(out@)[m] == tks[j].name + suffix@);
                    } else {
                        assert(views(out@)[out@.len() - 1] == tks[j].name + suffix@);
                    }
                }
            }
        }
        i = i + 1;
    }
    proof {
        let spec_set = string_set(old(out)@).union(spec_add);
        assert forall|s: Seq<char>| string_set(out@).contains(s) implies spec_set.contains(s) by {
            let m = choose|m: int| 0 <= m < out@.len() && views(out@)[m] == s;
            if m < old(out)@.len() {
                assert(views(old(out)@)[m] == s);
            } else {
                assert(spec_add.contains(views(out@)[m]));
            }
        }
        assert forall|s: Seq<char>| spec_set.contains(s) implies string_set(out@).contains(s) by {
            if string_set(old(out)@).contains(s) {
                let m = choose|m: int|
                    0 <= m < old(out)@.len() && views(old(out)@)[m] == s;
                assert(views(out@)[m] == s);
            } else {
                let n = choose|n: Seq<char>|
                    kind_names(tks, kind).contains(n) && s == n + suffix@;
                let j = choose|j: int|
                    0 <= j < tks.len() && tks[j].kind == kind && tks[j].name == n;
                assert(string_set(out@).contains(tks[j].name + suffix@));
            }
        }
        assert(string_set(out@) =~= spec_set);
    }
}

/// Pushes `name + suffix` for every given name.
fn push_given_exes(names: &Vec<String>, suffix: &String, out: &mut Vec<String>)
    ensures
        string_set(final(out)@) == string_set(old(out)@).union(
            views(names@).to_set().map(|n: Seq<char>| n + suffix@),
        ),
{
    let mut i: usize = 0;
    while i < names.len()
        invariant
            i <= names@.len(),
            out@.len() >= old(out)@.len(),
            forall|m: int| 0 <= m < old(out)@.len() ==> views(out@)[m] == views(old(out)@)[m],
            forall|m: int|
                old(out)@.len() <= m < out@.len() ==> exists|j: int|
                    0 <= j < i && #[trigger] views(out@)[m] == views(names@)[j] + suffix@,
            forall|j: int|
                0 <= j < i ==> string_set(out@).contains(#[trigger] views(names@)[j] + suffix@),
        decreases names@.len() - i,
    {
        let e = to_exe(&names[i], suffix);
        let ghost prev = out@;
        out.push(e);
        proof {
            assert(views(out@)[out@.len() - 1] == views(names@)[i as int] + suffix@);
            assert(forall|m: int| 0 <= m < prev.len() ==> views(out@)[m] == views(prev)[m]);
            assert forall|m: int|
                old(out)@.len() <= m < out@.len() implies exists|j: int|
                0 <= j < i + 1 && #[trigger] views(out@)[m] == views(names@)[j] + suffix@ by {
                if m < prev.len() {
                    let j = choose|j: int|
                        0 <= j < i && #[trigger] views(prev)[m] == views(names@)[j] + suffix@;
                    assert(views(out@)[m] == views(names@)[j] + suffix@);
                } else {
                    assert(views(out@)[m] == views(names@)[i as int] + suffix@);
                }
            }
            assert forall|j: int|
                0 <= j < i + 1 implies string_set(out@).contains(
                #[trigger] views(names@)[j] + suffix@,
            ) by {
                if j < i {
                    let m = choose|m: int|
                        0 <= m < prev.len() && views(prev)[m] == views(names@)[j] + suffix@;
                    assert(views(out@)[m] == views(names@)[j] + suffix@);
                } else {
                    assert(views(out@)[out@.len() - 1] == views(names@)[j] + suffix@);
                }
            }
        }
        i = i + 1;
    }
    proof {
        let spec_set = string_set(old(out)@).union(
            views(names@).to_set().map(|n: Seq<char>| n + suffix@),
        );
        assert forall|s: Seq<char>| string_set(out@).contains(s) implies spec_set.contains(s) by {
            let m = choose|m: int| 0 <= m < out@.len() && views(out@)[m] == s;
            if m < old(out)@.len() {
                assert(views(old(out)@)[m] == s);
            } else {
                let j = choose|j: int|
                    0 <= j < names@.len() && views(out@)[m] == views(names@)[j] + suffix@;
                assert(views(names@).to_set().contains(views(names@)[j]));
            }
        }
        assert forall|s: Seq<char>| spec_set.contains(s) implies string_set(out@).contains(s) by {
            if string_set(old(out)@).contains(s) {
                let m = choose|m: int|
                    0 <= m < old(out)@.len() && views(old(out)@)[m] == s;
                assert(views(out@)[m] == s);
            } else {
                let n = choose|n: Seq<char>|
                    views(names@).to_set().contains(n) && s == n + suffix@;
                let j = choose|j: int| 0 <= j < views(names@).len() && views(names@)[j] == n;
                assert(string_set(out@).contains(views(names@)[j] + suffix@));
            }
        }
        assert(string_set(out@) =~= spec_set);
    }
}

/// The executable file names the package would produce under the filter, with
/// the platform executable suffix appended to each.
pub fn exe_names(pkg: &Package, filter: &CompileFilter, suffix: &String) -> (r: Vec<String>)
    ensures
        string_set(r@) == exe_name_set(pkg.spec_targets(), filter@, suffix@),
        crate::text::sorted_strictly(views(r@)),
{
    let targets = pkg.targets();
    let ghost tks = pkg.spec_targets();
    let mut out: Vec<String> = Vec::new();
    match filter {
        CompileFilter::Default => {
            push_kind_exes(targets, TargetKind::Bin, suffix, &mut out);
            proof {
                lemma_union_of_maps(
                    string_set(Seq::<String>::empty()),
                    kind_names(tks, TargetKind::Bin),
                    string_set(out@),
                    suffix@,
                );
                assert(string_set(out@) =~= exe_name_set(tks, filter@, suffix@));
            }
        },
        CompileFilter::Only { all_targets: true, .. } => {
            push_kind_exes(targets, TargetKind::Bin, suffix, &mut out);
            let ghost mid = out@;
            push_kind_exes(targets, TargetKind::ExampleBin, suffix, &mut out);
            proof {
                lemma_union_of_maps(
                    string_set(Seq::<String>::empty()),
                    kind_names(tks, TargetKind::Bin),
                    string_set(mid),
                    suffix@,
                );
                lemma_union_of_maps(
                    string_set(mid),
                    kind_names(tks, TargetKind::ExampleBin),
                    string_set(out@),
                    suffix@,
                );
                assert forall|n: Seq<char>| executable_names(tks).contains(n) implies kind_names(
                    tks,
                    TargetKind::Bin,
                ).contains(n) || kind_names(tks, TargetKind::ExampleBin).contains(n) by {
                    let i = choose|i: int|
                        0 <= i < tks.len() && kind_is_executable(tks[i].kind) && tks[i].name == n;
                    if tks[i].kind == TargetKind::Bin {
                        assert(kind_names(tks, TargetKind::Bin).contains(n));
                    } else {
                        assert(kind_names(tks, TargetKind::ExampleBin).contains(n));
                    }
                }
                assert(kind_names(tks, TargetKind::Bin).union(
                    kind_names(tks, TargetKind::ExampleBin),
                ) =~= executable_names(tks));
                lemma_map_of_union(
                    kind_names(tks, TargetKind::Bin),
                    kind_names(tks, TargetKind::ExampleBin),
                    suffix@,
                );
                assert(string_set(out@) =~= exe_name_set(tks, filter@, suffix@));
            }
        },
        CompileFilter::Only { all_targets: false, bins, examples } => {
            let ghost bin_base = rule_names(bins@, tks, TargetKind::Bin);
            let ghost ex_base = rule_names(examples@, tks, TargetKind::ExampleBin);
            match bins {
                FilterRule::All => push_kind_exes(targets, TargetKind::Bin, suffix, &mut out),
                FilterRule::Just(names) => push_given_exes(names, suffix, &mut out),
            }
            let ghost mid = out@;
            proof {
                lemma_union_of_maps(
                    string_set(Seq::<String>::empty()),
                    bin_base,
                    string_set(mid),
                    suffix@,
                );
            }
            match examples {
                FilterRule::All => push_kind_exes(
                    targets,
                    TargetKind::ExampleBin,
                    suffix,
                    &mut out,
                ),
                FilterRule::Just(names) => push_given_exes(names, suffix, &mut out),
            }
            proof {
                lemma_union_of_maps(string_set(mid), ex_base, string_set(out@), suffix@);
                lemma_map_of_union(bin_base, ex_base, suffix@);
                assert(string_set(out@) =~= exe_name_set(tks, filter@, suffix@));
            }
        },
    }
    sorted_names(&out)
}

/// If `r == s0 union base-with-suffix` for one suffix-appending function, the
/// same holds for any other writing of that function.
proof fn lemma_union_of_maps(s0: Set<Seq<char>>, base: Set<Seq<char>>, r: Set<Seq<char>>, suf: Seq<
    char,
>)
    requires
        r == s0.union(base.map(|n: Seq<char>| n + suf)),
    ensures
        forall|s: Seq<char>|
            #[trigger] r.contains(s) <==> s0.contains(s) || (exists|n: Seq<char>|
                #[trigger] base.contains(n) && s == n + suf),
{
    assert forall|s: Seq<char>|
        #[trigger] r.contains(s) <==> s0.contains(s) || (exists|n: Seq<char>|
            #[trigger] base.contains(n) && s == n + suf) by {
        if r.contains(s) && !s0.contains(s) {
            let n = choose|n: Seq<char>| base.contains(n) && s == n + suf;
            assert(base.contains(n) && s == n + suf);
        }
        if (exists|n: Seq<char>| #[trigger] base.contains(n) && s == n + suf) {
            let n = choose|n: Seq<char>| base.contains(n) && s == n + suf;
            assert(base.map(|m: Seq<char>| m + suf).contains(s));
        }
    }
}

/// Appending a suffix to each name of a union is the union of the appended
/// parts.
proof fn lemma_map_of_union(a: Set<Seq<char>>, b: Set<Seq<char>>, suf: Seq<char>)
    ensures
        a.union(b).map(|n: Seq<char>| n + suf) =~= a.map(|n: Seq<char>| n + suf).union(
            b.map(|n: Seq<char>| n + suf),
        ),
{
    let f = |n: Seq<char>| n + suf;
    assert forall|s: Seq<char>| a.union(b).map(f).contains(s) implies a.map(f).union(
        b.map(f),
    ).contains(s) by {
        let n = choose|n: Seq<char>| a.union(b).contains(n) && s == f(n);
        if a.contains(n) {
            assert(a.map(f).contains(s));
        } else {
            assert(b.map(f).contains(s));
        }
    }
    assert forall|s: Seq<char>| a.map(f).union(b.map(f)).contains(s) implies a.union(b).map(
        f,
    ).contains(s) by {
        if a.map(f).contains(s) {
            let n = choose|n: Seq<char>| a.contains(n) && s == f(n);
            assert(a.union(b).contains(n));
        } else {
            let n = choose|n: Seq<char>| b.contains(n) && s == f(n);
            assert(a.union(b).contains(n));
        }
    }
}

/// The feature names of a request as a canonical list: sorted, each once.
pub(crate) fn feature_set(features: &Vec<String>) -> (r: Vec<String>)
    ensures
        string_set(r@) == string_set(features@),
        crate::text::sorted_strictly(views(r@)),
{
    sorted_names(features)
}

} // verus!
