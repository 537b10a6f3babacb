//! Classification of one environment's packages against a manifest.
use vstd::prelude::*;
use crate::dep_spec::violated_of;
use crate::manifest::{key_of, DepManifest};
use crate::name::{normalize, normalized};
use crate::package::{cmp_chars, compare_chars, lemma_cmp_chars, Package};
use crate::text::{chars_of, string_of};

verus! {

/// The audit outcome for one name.
#[derive(Clone, Debug)]
pub enum Outcome {
    /// Required and installed, and every constraint holds.
    Satisfied,
    /// Required and installed, but the constraints at these indices fail.
    Mismatch { violated: Vec<usize> },
    /// Required, not installed.
    Missing,
    /// Installed, not required.
    Unrequired,
}

/// One classification: the normalized name, where its requirement stands
/// in the manifest, where its package stands in the environment, and the
/// outcome.
#[derive(Clone, Debug)]
pub struct Record {
    pub key: String,
    pub spec: Option<usize>,
    pub package: Option<usize>,
    pub outcome: Outcome,
}

/// An interpreter and the packages installed for it.
#[derive(Clone, Debug)]
pub struct Environment {
    pub interpreter: String,
    pub packages: Vec<Package>,
}

pub open spec fn pkg_key(p: Package) -> Seq<char> {
    normalized(p.name@)
}

pub open spec fn env_has_key(ps: Seq<Package>, k: Seq<char>) -> bool {
    exists|j: int| 0 <= j < ps.len() && pkg_key(#[trigger] ps[j]) == k
}

/// `k` is required by the manifest or installed.
pub open spec fn in_union(m: DepManifest, ps: Seq<Package>, k: Seq<char>) -> bool {
    m.has_key(k) || env_has_key(ps, k)
}

/// `j` is the first package whose key is `k`.
pub open spec fn first_package(ps: Seq<Package>, k: Seq<char>, j: int) -> bool {
    &&& 0 <= j < ps.len()
    &&& pkg_key(ps[j]) == k
    &&& forall|i: int| 0 <= i < j ==> pkg_key(#[trigger] ps[i]) != k
}

/// What the record for its key must say.
pub open spec fn record_ok(m: DepManifest, ps: Seq<Package>, r: Record) -> bool {
    let k = r.key@;
    &&& (r.spec matches Some(j) ==> j < m.specs@.len() && key_of(m.specs@[j as int]) == k)
    &&& (r.spec is None ==> !m.has_key(k))
    &&& (r.package matches Some(j) ==> first_package(ps, k, j as int))
    &&& (r.package is None ==> !env_has_key(ps, k))
    &&& match (r.spec, r.package) {
        (Some(s), Some(p)) => {
            let v = violated_of(ps[p as int].version, m.specs@[s as int].constraints@);
            if v.len() == 0 {
                r.outcome is Satisfied
            } else {
                r.outcome matches Outcome::Mismatch { violated } && violated@ == v
            }
        },
        (Some(_), None) => r.outcome is Missing,
        (None, Some(_)) => r.outcome is Unrequired,
        (None, None) => false,
    }
}

pub open spec fn sorted_keys(v: Seq<Vec<char>>) -> bool {
    forall|i: int, j: int| 0 <= i < j < v.len() ==> cmp_chars((#[trigger] v[i])@, (#[trigger] v[j])@) < 0
}

pub open spec fn holds_key(v: Seq<Vec<char>>, k: Seq<char>) -> bool {
    exists|i: int| 0 <= i < v.len() && (#[trigger] v[i])@ == k
}

/// Inserts `k` into strictly sorted `keys`, unless it is there already.
fn insert_key(keys: &mut Vec<Vec<char>>, k: Vec<char>)
    requires
        sorted_keys(old(keys)@),
    ensures
        sorted_keys(final(keys)@),
        forall|x: Seq<char>| holds_key(final(keys)@, x) <==> holds_key(old(keys)@, x) || x == k@,
{
    let ghost before = keys@;
    let mut j: usize = 0;
    while j < keys.len() && compare_chars(&keys[j], &k) < 0
        invariant
            keys@ == before,
            j <= keys@.len(),
            forall|i: int| 0 <= i < j ==> cmp_chars((#[trigger] keys@[i])@, k@) < 0,
        decreases keys@.len() - j,
    {
        j += 1;
    }
    if j < keys.len() && compare_chars(&keys[j], &k) == 0 {
        proof {
            lemma_cmp_chars(keys@[j as int]@, k@, k@);
        }
        return;
    }
    proof {
        if j < keys@.len() {
            lemma_cmp_chars(keys@[j as int]@, k@, k@);
        }
    }
    let ghost kv = k@;
    keys.insert(j, k);
    proof {
        let s = keys@;
        assert(s == before.insert(j as int, s[j as int]));
        assert forall|a: int, b: int| 0 <= a < b < s.len() implies cmp_chars((#[trigger] s[a])@, (#[trigger] s[b])@) < 0 by {
            if b < j {
                assert(s[a] == before[a] && s[b] == before[b]);
            } else if b == j {
                assert(s[a] == before[a]);
            } else if a == j {
                assert(s[b] == before[b - 1]);
                if b - 1 > j {
                    assert(cmp_chars(before[j as int]@, before[b - 1]@) < 0);
                    lemma_cmp_chars(kv, before[j as int]@, before[b - 1]@);
                }
            } else if a < j {
                assert(s[a] == before[a] && s[b] == before[b - 1]);
                lemma_cmp_chars(before[a]@, kv, before[b - 1]@);
                if b - 1 > j {
                    lemma_cmp_chars(kv, before[j as int]@, before[b - 1]@);
                }
                assert(cmp_chars(kv, before[b - 1]@) < 0) by {
                    if b - 1 > j {
                        assert(cmp_chars(before[j as int]@, before[b - 1]@) < 0);
                    }
                }
            } else {
                assert(s[a] == before[a - 1] && s[b] == before[b - 1]);
            }
        }
        assert forall|x: Seq<char>| holds_key(s, x) <==> holds_key(before, x) || x == kv by {
            if holds_key(s, x) {
                let i = choose|i: int| 0 <= i < s.len() && (#[trigger] s[i])@ == x;
                if i < j {
                    assert(s[i] == before[i]);
                } else if i > j {
                    assert(s[i] == before[i - 1]);
                }
            }
            if holds_key(before, x) {
                let i = choose|i: int| 0 <= i < before.len() && (#[trigger] before[i])@ == x;
                if i < j {
                    assert(s[i] == before[i]);
                } else {
                    assert(s[i + 1] == before[i]);
                }
            }
            if x == kv {
                assert(s[j as int]@ == kv);
            }
        }
    }
}

/// The first package whose normalized name is `k`.
fn first_package_index(ps: &Vec<Package>, k: &String) -> (r: Option<usize>)
    ensures
        r matches Some(j) ==> first_package(ps@, k@, j as int),
        r is None ==> !env_has_key(ps@, k@),
{
    let mut j: usize = 0;
    while j < ps.len()
        invariant
            j <= ps@.len(),
            forall|i: int| 0 <= i < j ==> pkg_key(#[trigger] ps@[i]) != k@,
        decreases ps@.len() - j,
    {
        let kj = normalize(ps[j].name.as_str());
        if kj == *k {
            return Some(j);
        }
        j += 1;
    }
    None
}

/// The sorted normalized names that the manifest requires or the
/// environment installs.
fn union_keys(m: &DepManifest, ps: &Vec<Package>) -> (keys: Vec<Vec<char>>)
    ensures
        sorted_keys(keys@),
        forall|t: int| 0 <= t < keys@.len() ==> in_union(*m, ps@, (#[trigger] keys@[t])@),
        forall|k: Seq<char>| in_union(*m, ps@, k) ==> holds_key(keys@, k),
{
    let mut keys: Vec<Vec<char>> = Vec::new();
    let mut i: usize = 0;
    while i < m.specs.len()
        invariant
            i <= m.specs@.len(),
            sorted_keys(keys@),
            forall|t: int| 0 <= t < keys@.len() ==> in_union(*m, ps@, (#[trigger] keys@[t])@),
            forall|j: int| 0 <= j < i ==> holds_key(keys@, key_of(#[trigger] m.specs@[j])),
        decreases m.specs@.len() - i,
    {
        let k = chars_of(normalize(m.specs[i].name.as_str()).as_str());
        proof {
            assert(m.has_key(k@)) by { assert(key_of(m.specs@[i as int]) == k@); }
        }
        let ghost old_keys = keys@;
        insert_key(&mut keys, k);
        proof {
            assert forall|t: int| 0 <= t < keys@.len() implies in_union(*m, ps@, (#[trigger] keys@[t])@) by {
                assert(holds_key(keys@, keys@[t]@));
                if holds_key(old_keys, keys@[t]@) {
                    let u = choose|u: int| 0 <= u < old_keys.len() && (#[trigger] old_keys[u])@ == keys@[t]@;
                }
            }
            assert forall|j: int| 0 <= j < i + 1 implies holds_key(keys@, key_of(#[trigger] m.specs@[j])) by {
                if j < i {
                    assert(holds_key(old_keys, key_of(m.specs@[j])));
                }
            }
        }
        i += 1;
    }
    let mut i: usize = 0;
    while i < ps.len()
        invariant
            i <= ps@.len(),
            sorted_keys(keys@),
            forall|t: int| 0 <= t < keys@.len() ==> in_union(*m, ps@, (#[trigger] keys@[t])@),
            forall|j: int| 0 <= j < m.specs@.len() ==> holds_key(keys@, key_of(#[trigger] m.specs@[j])),
            forall|j: int| 0 <= j < i ==> holds_key(keys@, pkg_key(#[trigger] ps@[j])),
        decreases ps@.len() - i,
    {
        let k = chars_of(normalize(ps[i].name.as_str()).as_str());
        proof {
            assert(env_has_key(ps@, k@)) by { assert(pkg_key(ps@[i as int]) == k@); }
        }
        let ghost old_keys = keys@;
        insert_key(&mut keys, k);
        proof {
            assert forall|t: int| 0 <= t < keys@.len() implies in_union(*m, ps@, (#[trigger] keys@[t])@) by {
                assert(holds_key(keys@, keys@[t]@));
                if holds_key(old_keys, keys@[t]@) {
                    let u = choose|u: int| 0 <= u < old_keys.len() && (#[trigger] old_keys[u])@ == keys@[t]@;
                }
            }
            assert forall|j: int| 0 <= j < m.specs@.len() implies holds_key(keys@, key_of(#[trigger] m.specs@[j])) by {
                assert(holds_key(old_keys, key_of(m.specs@[j])));
            }
            assert forall|j: int| 0 <= j < i + 1 implies holds_key(keys@, pkg_key(#[trigger] ps@[j])) by {
                if j < i {
                    assert(holds_key(old_keys, pkg_key(ps@[j])));
                }
            }
        }
        i += 1;
    }
    proof {
        assert forall|k: Seq<char>| in_union(*m, ps@, k) implies holds_key(keys@, k) by {
            if m.has_key(k) {
                let j = choose|j: int| 0 <= j < m.specs@.len() && key_of(#[trigger] m.specs@[j]) == k;
                assert(holds_key(keys@, key_of(m.specs@[j])));
            } else {
                let j = choose|j: int| 0 <= j < ps@.len() && pkg_key(#[trigger] ps@[j]) == k;
                assert(holds_key(keys@, pkg_key(ps@[j])));
            }
        }
    }
    keys
}

impl Environment {
    /// Classifies every name that the manifest requires or the environment
    /// installs, exactly once each, in increasing order of normalized name.
    pub fn validate(&self, m: &DepManifest) -> (r: Vec<Record>)
        ensures
            validated(*m, self.packages@, r@),
    {
        let ps = &self.packages;
        let keys = union_keys(m, ps);
        let mut r: Vec<Record> = Vec::new();
        let mut t: usize = 0;
        while t < keys.len()
            invariant
                t <= keys@.len(),
                r@.len() == t,
                sorted_keys(keys@),
                forall|u: int| 0 <= u < keys@.len() ==> in_union(*m, ps@, (#[trigger] keys@[u])@),
                forall|i: int| 0 <= i < t ==> (#[trigger] r@[i]).key@ == keys@[i]@ && record_ok(*m, ps@, r@[i]),
            decreases keys@.len() - t,
        {
            let key = string_of(&keys[t], 0, keys[t].len());
            assert(keys@[t as int]@.subrange(0, keys@[t as int]@.len() as int) =~= keys@[t as int]@);
            let spec = m.find_key(&key);
            let package = first_package_index(ps, &key);
            let outcome = match (spec, package) {
                (Some(s), Some(p)) => {
                    let v = m.specs[s].violated(&ps[p].version);
                    if v.len() == 0 { Outcome::Satisfied } else { Outcome::Mismatch { violated: v } }
                },
                (Some(_), None) => Outcome::Missing,
                (None, Some(_)) => Outcome::Unrequired,
                (None, None) => {
                    assert(in_union(*m, ps@, key@));
                    Outcome::Missing
                },
            };
            let rec = Record { key, spec, package, outcome };
            assert(record_ok(*m, ps@, rec));
            r.push(rec);
            t += 1;
        }
        proof {
            assert forall|k: Seq<char>| in_union(*m, ps@, k) implies exists|i: int| 0 <= i < r@.len() && (#[trigger] r@[i]).key@ == k by {
                assert(holds_key(keys@, k));
                let u = choose|u: int| 0 <= u < keys@.len() && (#[trigger] keys@[u])@ == k;
                assert(r@[u].key@ == k);
            }
            assert forall|i: int, j: int| 0 <= i < j < r@.len() implies cmp_chars((#[trigger] r@[i]).key@, (#[trigger] r@[j]).key@) < 0 by {
                assert(r@[i].key@ == keys@[i]@ && r@[j].key@ == keys@[j]@);
            }
        }
        r
    }
}

/// The keys of a sequence of records.
pub open spec fn record_keys(r: Seq<Record>) -> Seq<Seq<char>> {
    r.map_values(|x: Record| x.key@)
}

pub open spec fn strictly_sorted(a: Seq<Seq<char>>) -> bool {
    forall|i: int, j: int| 0 <= i < j < a.len() ==> cmp_chars(#[trigger] a[i], #[trigger] a[j]) < 0
}

pub open spec fn seq_has(a: Seq<Seq<char>>, x: Seq<char>) -> bool {
    exists|i: int| 0 <= i < a.len() && #[trigger] a[i] == x
}

/// What `validate` promises of its result.
pub open spec fn validated(m: DepManifest, ps: Seq<Package>, r: Seq<Record>) -> bool {
    &&& forall|i: int| 0 <= i < r.len() ==> record_ok(m, ps, #[trigger] r[i])
    &&& forall|i: int, j: int| 0 <= i < j < r.len() ==> cmp_chars((#[trigger] r[i]).key@, (#[trigger] r[j]).key@) < 0
    &&& forall|k: Seq<char>| in_union(m, ps, k) ==> exists|i: int| 0 <= i < r.len() && (#[trigger] r[i]).key@ == k
}

/// Two outcomes of the same kind, with the same violated constraints.
pub open spec fn same_outcome(a: Outcome, b: Outcome) -> bool {
    match (a, b) {
        (Outcome::Satisfied, Outcome::Satisfied) => true,
        (Outcome::Mismatch { violated: x }, Outcome::Mismatch { violated: y }) => x@ == y@,
        (Outcome::Missing, Outcome::Missing) => true,
        (Outcome::Unrequired, Outcome::Unrequired) => true,
        _ => false,
    }
}

/// Two strictly sorted sequences with the same elements are equal.
proof fn lemma_sorted_unique(a: Seq<Seq<char>>, b: Seq<Seq<char>>)
    requires
        strictly_sorted(a),
        strictly_sorted(b),
        forall|x: Seq<char>| seq_has(a, x) <==> seq_has(b, x),
    ensures
        a == b,
{
    if a.len() > b.len() {
        let n = b.len() as int;
        lemma_sorted_prefix(a, b, n);
        assert(seq_has(a, a[n]));
        let j = choose|j: int| 0 <= j < b.len() && #[trigger] b[j] == a[n];
        assert(a[j] == b[j]);
        assert(cmp_chars(a[j], a[n]) < 0);
        lemma_cmp_chars(a[j], a[n], a[n]);
    } else if b.len() > a.len() {
        let n = a.len() as int;
        lemma_sorted_prefix(a, b, n);
        assert(seq_has(b, b[n]));
        let j = choose|j: int| 0 <= j < a.len() && #[trigger] a[j] == b[n];
        assert(a[j] == b[j]);
        assert(cmp_chars(b[j], b[n]) < 0);
        lemma_cmp_chars(b[j], b[n], b[n]);
    } else {
        lemma_sorted_prefix(a, b, a.len() as int);
        assert(a =~= b);
    }
}

proof fn lemma_sorted_prefix(a: Seq<Seq<char>>, b: Seq<Seq<char>>, n: int)
    requires
        strictly_sorted(a),
        strictly_sorted(b),
        forall|x: Seq<char>| seq_has(a, x) <==> seq_has(b, x),
        0 <= n <= a.len(),
        n <= b.len(),
    ensures
        forall|i: int| 0 <= i < n ==> a[i] == b[i],
    decreases n,
{
    if n > 0 {
        let i = n - 1;
        lemma_sorted_prefix(a, b, i);
        assert(seq_has(a, a[i]));
        let j = choose|j: int| 0 <= j < b.len() && #[trigger] b[j] == a[i];
        assert(seq_has(b, b[i]));
        let j2 = choose|j2: int| 0 <= j2 < a.len() && #[trigger] a[j2] == b[i];
        if j < i {
            assert(a[j] == b[j]);
            assert(cmp_chars(a[j], a[i]) < 0);
            lemma_cmp_chars(a[j], a[i], a[i]);
        }
        if j2 < i {
            assert(a[j2] == b[j2]);
            assert(cmp_chars(b[j2], b[i]) < 0);
            lemma_cmp_chars(b[j2], b[i], b[i]);
        }
        if j > i && j2 > i {
            assert(cmp_chars(b[i], b[j]) < 0);
            assert(cmp_chars(a[i], a[j2]) < 0);
            lemma_cmp_chars(a[i], b[i], a[i]);
            lemma_cmp_chars(a[i], a[j2], b[i]);
        } else if j > i && j2 == i {
            assert(cmp_chars(b[i], b[j]) < 0);
            lemma_cmp_chars(b[i], b[j], b[j]);
        } else if j == i {
        } else if j2 == i {
        }
    }
}

proof fn lemma_record_keys(m: DepManifest, ps: Seq<Package>, r: Seq<Record>)
    requires
        validated(m, ps, r),
    ensures
        strictly_sorted(record_keys(r)),
        forall|x: Seq<char>| seq_has(record_keys(r), x) <==> in_union(m, ps, x),
{
    let a = record_keys(r);
    assert forall|i: int, j: int| 0 <= i < j < a.len() implies cmp_chars(#[trigger] a[i], #[trigger] a[j]) < 0 by {
        assert(cmp_chars(r[i].key@, r[j].key@) < 0);
    }
    assert forall|x: Seq<char>| seq_has(a, x) <==> in_union(m, ps, x) by {
        if seq_has(a, x) {
            let i = choose|i: int| 0 <= i < a.len() && #[trigger] a[i] == x;
            assert(record_ok(m, ps, r[i]));
        }
        if in_union(m, ps, x) {
            let i = choose|i: int| 0 <= i < r.len() && (#[trigger] r[i]).key@ == x;
            assert(a[i] == x);
        }
    }
}

/// Classification is deterministic: any two results that meet what
/// `validate` promises, for one manifest and one set of packages, list
/// the same names in the same order, with the same requirement, the same
/// package and the same outcome for each.
pub proof fn lemma_validate_deterministic(m: DepManifest, ps: Seq<Package>, r1: Seq<Record>, r2: Seq<Record>)
    requires
        m.wf(),
        validated(m, ps, r1),
        validated(m, ps, r2),
    ensures
        r1.len() == r2.len(),
        forall|i: int| 0 <= i < r1.len() ==> {
            &&& (#[trigger] r1[i]).key@ == r2[i].key@
            &&& r1[i].spec == r2[i].spec
            &&& r1[i].package == r2[i].package
            &&& same_outcome(r1[i].outcome, r2[i].outcome)
        },
{
    lemma_record_keys(m, ps, r1);
    lemma_record_keys(m, ps, r2);
    lemma_sorted_unique(record_keys(r1), record_keys(r2));
    assert(record_keys(r1).len() == r1.len());
    assert forall|i: int| 0 <= i < r1.len() implies {
        &&& (#[trigger] r1[i]).key@ == r2[i].key@
        &&& r1[i].spec == r2[i].spec
        &&& r1[i].package == r2[i].package
        &&& same_outcome(r1[i].outcome, r2[i].outcome)
    } by {
        assert(record_keys(r1)[i] == r1[i].key@);
        assert(record_keys(r2)[i] == r2[i].key@);
        assert(record_ok(m, ps, r1[i]));
        assert(record_ok(m, ps, r2[i]));
        let k = r1[i].key@;
        if r1[i].spec is Some && r2[i].spec is Some {
            let a = r1[i].spec->0 as int;
            let b = r2[i].spec->0 as int;
            if a < b {
                assert(key_of(m.specs@[a]) != key_of(m.specs@[b]));
            } else if b < a {
                assert(key_of(m.specs@[b]) != key_of(m.specs@[a]));
            }
        }
        if r1[i].package is Some && r2[i].package is Some {
            let a = r1[i].package->0 as int;
            let b = r2[i].package->0 as int;
            if a < b {
                assert(pkg_key(ps[a]) != k);
            } else if b < a {
                assert(pkg_key(ps[b]) != k);
            }
        }
    }
}

} // verus!
