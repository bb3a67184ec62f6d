use vstd::prelude::*;

verus! {

/// Strict lexicographic order on character sequences, comparing code points
/// position by position; a proper prefix comes before every longer sequence.
pub open spec fn seq_lt(a: Seq<char>, b: Seq<char>) -> bool
    decreases a.len(),
{
    if b.len() == 0 {
        false
    } else if a.len() == 0 {
        true
    } else if a[0] == b[0] {
        seq_lt(a.skip(1), b.skip(1))
    } else {
        (a[0] as u32) < (b[0] as u32)
    }
}

/// The order is total: any two sequences are comparable.
pub proof fn lemma_seq_lt_total(a: Seq<char>, b: Seq<char>)
    ensures
        seq_lt(a, b) || seq_lt(b, a) || a == b,
    decreases a.len(),
{
    if b.len() == 0 || a.len() == 0 {
        if a.len() == b.len() {
            assert(a =~= b);
        }
    } else if a[0] == b[0] {
        lemma_seq_lt_total(a.skip(1), b.skip(1));
        if a.skip(1) == b.skip(1) {
            assert(a.skip(1).len() == a.len() - 1);
            assert(b.skip(1).len() == b.len() - 1);
            assert forall|k: int| 0 <= k < a.len() implies a[k] == b[k] by {
                if k >= 1 {
                    assert(a.skip(1)[k - 1] == b.skip(1)[k - 1]);
                }
            }
            assert(a =~= b);
        }
    } else {
        if !((a[0] as u32) < (b[0] as u32)) && !((b[0] as u32) < (a[0] as u32)) {
            vstd::utf8::char_u32_cast(a[0], a[0] as u32);
            vstd::utf8::char_u32_cast(b[0], b[0] as u32);
            assert(a[0] == b[0]);
        }
    }
}

/// The order is strict: no two sequences come before each other.
pub proof fn lemma_seq_lt_asymmetric(a: Seq<char>, b: Seq<char>)
    ensures
        !(seq_lt(a, b) && seq_lt(b, a)),
    decreases a.len(),
{
    if a.len() > 0 && b.len() > 0 && a[0] == b[0] {
        lemma_seq_lt_asymmetric(a.skip(1), b.skip(1));
    }
}

pub proof fn lemma_seq_lt_transitive(a: Seq<char>, b: Seq<char>, c: Seq<char>)
    ensures
        seq_lt(a, b) && seq_lt(b, c) ==> seq_lt(a, c),
    decreases a.len(),
{
    if a.len() > 0 && b.len() > 0 && c.len() > 0 {
        lemma_seq_lt_transitive(a.skip(1), b.skip(1), c.skip(1));
    }
}

/// Exec comparison of two strings by the lexicographic order of their views.
pub fn str_lt(a: &str, b: &str) -> (r: bool)
    ensures
        r == seq_lt(a@, b@),
{
    let alen = a.unicode_len();
    let blen = b.unicode_len();
    let mut i: usize = 0;
    proof {
        assert(a@.skip(0) =~= a@);
        assert(b@.skip(0) =~= b@);
    }
    loop
        invariant
            i <= alen,
            i <= blen,
            alen == a@.len(),
            blen == b@.len(),
            seq_lt(a@, b@) == seq_lt(a@.skip(i as int), b@.skip(i as int)),
        decreases alen - i,
    {
        if i == blen {
            assert(b@.skip(i as int).len() == 0);
            return false;
        }
        if i == alen {
            assert(a@.skip(i as int).len() == 0);
            return true;
        }
        let ca = a.get_char(i);
        let cb = b.get_char(i);
        if ca == cb {
            proof {
                assert(a@.skip(i as int).skip(1) =~= a@.skip(i + 1));
                assert(b@.skip(i as int).skip(1) =~= b@.skip(i + 1));
                assert(a@.skip(i as int)[0] == ca);
                assert(b@.skip(i as int)[0] == cb);
            }
            i = i + 1;
        } else {
            proof {
                assert(a@.skip(i as int)[0] == ca);
                assert(b@.skip(i as int)[0] == cb);
            }
            return (ca as u32) < (cb as u32);
        }
    }
}

/// Exec equality of two strings by their views.
pub fn str_eq(a: &String, b: &String) -> (r: bool)
    ensures
        r == (a@ == b@),
{
    *a == *b
}

/// The views of a sequence of strings.
pub open spec fn views(v: Seq<String>) -> Seq<Seq<char>> {
    v.map_values(|s: String| s@)
}

/// The set of string views held by a vector.
pub open spec fn string_set(v: Seq<String>) -> Set<Seq<char>> {
    views(v).to_set()
}

pub open spec fn sorted_strictly(s: Seq<Seq<char>>) -> bool {
    forall|i: int, j: int| 0 <= i < j < s.len() ==> seq_lt(s[i], s[j])
}

/// Whether the vector holds a string whose view is `s`'s.
pub fn contains_string(v: &Vec<String>, s: &String) -> (r: bool)
    ensures
        r == string_set(v@).contains(s@),
{
    let mut i: usize = 0;
    while i < v.len()
        invariant
            i <= v@.len(),
            forall|j: int| 0 <= j < i ==> views(v@)[j] != s@,
        decreases v@.len() - i,
    {
        if str_eq(&v[i], s) {
            assert(views(v@)[i as int] == s@);
            return true;
        }
        i = i + 1;
    }
    assert(forall|j: int| 0 <= j < views(v@).len() ==> views(v@)[j] != s@);
    false
}

/// Whether two vectors hold the same set of strings.
pub fn string_set_eq(a: &Vec<String>, b: &Vec<String>) -> (r: bool)
    ensures
        r == (string_set(a@) == string_set(b@)),
{
    let mut i: usize = 0;
    while i < a.len()
        invariant
            i <= a@.len(),
            forall|j: int| 0 <= j < i ==> string_set(b@).contains(#[trigger] views(a@)[j]),
        decreases a@.len() - i,
    {
        if !contains_string(b, &a[i]) {
            assert(string_set(a@).contains(views(a@)[i as int]));
            return false;
        }
        i = i + 1;
    }
    let mut k: usize = 0;
    while k < b.len()
        invariant
            k <= b@.len(),
            forall|j: int| 0 <= j < a@.len() ==> string_set(b@).contains(#[trigger] views(a@)[j]),
            forall|j: int| 0 <= j < k ==> string_set(a@).contains(#[trigger] views(b@)[j]),
        decreases b@.len() - k,
    {
        if !contains_string(a, &b[k]) {
            assert(string_set(b@).contains(views(b@)[k as int]));
            return false;
        }
        k = k + 1;
    }
    proof {
        assert forall|x: Seq<char>| string_set(a@).contains(x) implies string_set(b@).contains(
            x,
        ) by {
            let j = choose|j: int| 0 <= j < views(a@).len() && views(a@)[j] == x;
            assert(string_set(b@).contains(views(a@)[j]));
        }
        assert forall|x: Seq<char>| string_set(b@).contains(x) implies string_set(a@).contains(
            x,
        ) by {
            let j = choose|j: int| 0 <= j < views(b@).len() && views(b@)[j] == x;
            assert(string_set(a@).contains(views(b@)[j]));
        }
        assert(string_set(a@) =~= string_set(b@));
    }
    true
}

/// Inserting into a sequence adds exactly one element to the set of values.
proof fn lemma_insert_to_set(s: Seq<Seq<char>>, i: int, x: Seq<char>)
    requires
        0 <= i <= s.len(),
    ensures
        s.insert(i, x).to_set() =~= s.to_set().insert(x),
{
    let t = s.insert(i, x);
    assert forall|y: Seq<char>| t.to_set().contains(y) implies s.to_set().insert(x).contains(
        y,
    ) by {
        let j = choose|j: int| 0 <= j < t.len() && t[j] == y;
        if j < i {
            assert(s[j] == y);
        } else if j > i {
            assert(s[j - 1] == y);
        }
    }
    assert forall|y: Seq<char>| s.to_set().insert(x).contains(y) implies t.to_set().contains(
        y,
    ) by {
        if y == x {
            assert(t[i] == y);
        } else {
            let j = choose|j: int| 0 <= j < s.len() && s[j] == y;
            if j < i {
                assert(t[j] == y);
            } else {
                assert(t[j + 1] == y);
            }
        }
    }
}

/// Returns the distinct strings of `v` in strictly ascending lexicographic
/// order: the same set of views, each exactly once, sorted.
pub fn sorted_names(v: &Vec<String>) -> (r: Vec<String>)
    ensures
        string_set(r@) == string_set(v@),
        sorted_strictly(views(r@)),
{
    let mut out: Vec<String> = Vec::new();
    let mut i: usize = 0;
    while i < v.len()
        invariant
            i <= v@.len(),
            string_set(out@) == string_set(v@.take(i as int)),
            sorted_strictly(views(out@)),
        decreases v@.len() - i,
    {
        let x = &v[i];
        let present = contains_string(&out, x);
        proof {
            assert(views(v@.take(i + 1)) =~= views(v@.take(i as int)).push(v@[i as int]@));
            Seq::lemma_push_to_set_commute(views(v@.take(i as int)), v@[i as int]@);
        }
        if !present {
            let mut p: usize = 0;
            loop
                invariant
                    p <= out@.len(),
                    !string_set(out@).contains(x@),
                    sorted_strictly(views(out@)),
                    forall|q: int| 0 <= q < p ==> seq_lt(#[trigger] views(out@)[q], x@),
                ensures
                    p <= out@.len(),
                    forall|q: int| 0 <= q < p ==> seq_lt(#[trigger] views(out@)[q], x@),
                    p < out@.len() ==> seq_lt(x@, views(out@)[p as int]),
                decreases out@.len() - p,
            {
                if p == out.len() {
                    break ;
                }
                if str_lt(x.as_str(), out[p].as_str()) {
                    break ;
                }
                proof {
                    assert(views(out@)[p as int] != x@);
                    lemma_seq_lt_total(x@, views(out@)[p as int]);
                }
                p = p + 1;
            }
            let ghost old_out = out@;
            let ghost pp = p as int;
            out.insert(p, x.clone());
            proof {
                assert(views(out@) =~= views(old_out).insert(pp, x@));
                lemma_insert_to_set(views(old_out), pp, x@);
                let n = views(out@);
                assert forall|a: int, b: int| 0 <= a < b < n.len() implies seq_lt(n[a], n[b]) by {
                    let o = views(old_out);
                    if b < pp {
                    } else if b == pp {
                        assert(n[a] == o[a]);
                    } else if a == pp {
                        assert(n[b] == o[b - 1]);
                        if b - 1 > pp {
                            assert(pp < o.len());
                            assert(seq_lt(o[pp], o[b - 1]));
                            lemma_seq_lt_transitive(x@, o[pp], o[b - 1]);
                        }
                    } else if a < pp {
                        assert(n[a] == o[a]);
                        assert(n[b] == o[b - 1]);
                        if a == b - 1 {
                            assert(seq_lt(o[a], x@));
                            assert(false);
                        }
                    } else {
                        assert(n[a] == o[a - 1]);
                        assert(n[b] == o[b - 1]);
                    }
                }
            }
        } else {
            proof {
                assert(string_set(out@).insert(v@[i as int]@) =~= string_set(out@));
            }
        }
        i = i + 1;
    }
    proof {
        assert(v@.take(v@.len() as int) =~= v@);
    }
    out
}

} // verus!
