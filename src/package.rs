//! Installed distributions, identified by the name of their metadata
//! directory.
use vstd::prelude::*;
use crate::text::{chars_of, occurs_at, string_of};
use crate::version::{lemma_same_text_equal, ordering_of, VersionSpec};
use core::cmp::Ordering;

verus! {

/// How a distribution that did not come from an index was obtained.
#[derive(Clone, Debug)]
pub enum DirectUrl {
    LocalDirectory { path: String, editable: bool },
    Archive { url: String },
    Vcs { url: String, vcs: String, commit: Option<String>, requested_revision: Option<String> },
}

/// One installed distribution: a name and a version, with its provenance
/// where it is known.
#[derive(Clone, Debug)]
pub struct Package {
    pub name: String,
    pub version: VersionSpec,
    pub direct_url: Option<DirectUrl>,
}

/// Relies on `str::to_lowercase`: the result depends on the text alone.
pub uninterp spec fn lower_of(s: Seq<char>) -> Seq<char>;

/// Relies on `str::to_lowercase`, to order names without regard to case.
#[verifier::external_body]
fn lowercase(s: &str) -> (r: String)
    ensures
        r@ == lower_of(s@),
{
    s.to_lowercase()
}

/// The suffix that marks a distribution-metadata directory.
pub open spec fn dist_suffix() -> Seq<char> {
    seq!['.', 'd', 'i', 's', 't', '-', 'i', 'n', 'f', 'o']
}

pub open spec fn has_dist_suffix(s: Seq<char>) -> bool {
    s.len() >= 10 && s.subrange(s.len() - 10, s.len() as int) == dist_suffix()
}

/// The directory name without its suffix.
pub open spec fn stem(s: Seq<char>) -> Seq<char> {
    s.subrange(0, s.len() - 10)
}

/// Index of the last `-` in `t`, or -1.
pub open spec fn last_dash(t: Seq<char>) -> int
    decreases t.len(),
{
    if t.len() == 0 {
        -1
    } else if t.last() == '-' {
        t.len() - 1
    } else {
        last_dash(t.drop_last())
    }
}

proof fn lemma_last_dash_prefix(t: Seq<char>, k: int)
    requires
        0 <= k <= t.len(),
        forall|j: int| k <= j < t.len() ==> t[j] != '-',
    ensures
        last_dash(t) == last_dash(t.subrange(0, k)),
    decreases t.len() - k,
{
    if k < t.len() {
        let u = t.drop_last();
        assert(t.last() != '-');
        lemma_last_dash_prefix(u, k);
        assert(u.subrange(0, k) =~= t.subrange(0, k));
    } else {
        assert(t.subrange(0, k) =~= t);
    }
}

proof fn lemma_last_dash_range(t: Seq<char>)
    ensures
        -1 <= last_dash(t) < t.len(),
        last_dash(t) >= 0 ==> t[last_dash(t)] == '-',
    decreases t.len(),
{
    if t.len() > 0 && t.last() != '-' {
        lemma_last_dash_range(t.drop_last());
    }
}

/// Lexicographic order of character sequences: -1, 0 or 1.
pub open spec fn cmp_chars(a: Seq<char>, b: Seq<char>) -> int
    decreases a.len(),
{
    if a.len() == 0 && b.len() == 0 {
        0
    } else if a.len() == 0 {
        -1
    } else if b.len() == 0 {
        1
    } else if a[0] < b[0] {
        -1
    } else if a[0] > b[0] {
        1
    } else {
        cmp_chars(a.drop_first(), b.drop_first())
    }
}

pub(crate) fn compare_chars(a: &Vec<char>, b: &Vec<char>) -> (r: i8)
    ensures
        r as int == cmp_chars(a@, b@),
{
    let mut i: usize = 0;
    assert(a@.subrange(0, a.len() as int) =~= a@);
    assert(b@.subrange(0, b.len() as int) =~= b@);
    while i < a.len() && i < b.len()
        invariant
            i <= a.len(),
            i <= b.len(),
            cmp_chars(a@, b@) == cmp_chars(a@.subrange(i as int, a.len() as int), b@.subrange(i as int, b.len() as int)),
        decreases a.len() - i,
    {
        let ghost sa = a@.subrange(i as int, a.len() as int);
        let ghost sb = b@.subrange(i as int, b.len() as int);
        assert(sa[0] == a@[i as int] && sb[0] == b@[i as int]);
        if a[i] < b[i] {
            return -1;
        } else if a[i] > b[i] {
            return 1;
        }
        assert(sa.drop_first() =~= a@.subrange(i + 1, a.len() as int));
        assert(sb.drop_first() =~= b@.subrange(i + 1, b.len() as int));
        i += 1;
    }
    let ghost sa = a@.subrange(i as int, a.len() as int);
    let ghost sb = b@.subrange(i as int, b.len() as int);
    if i < a.len() {
        assert(sa.len() > 0 && sb.len() == 0);
        1
    } else if i < b.len() {
        assert(sa.len() == 0 && sb.len() > 0);
        -1
    } else {
        assert(sa.len() == 0 && sb.len() == 0);
        0
    }
}

/// `cmp_chars` is a strict total order on character sequences.
pub proof fn lemma_cmp_chars(a: Seq<char>, b: Seq<char>, c: Seq<char>)
    ensures
        cmp_chars(a, b) == -cmp_chars(b, a),
        cmp_chars(a, b) == 0 <==> a == b,
        cmp_chars(a, b) < 0 && cmp_chars(b, c) < 0 ==> cmp_chars(a, c) < 0,
    decreases a.len(),
{
    if a.len() > 0 && b.len() > 0 {
        if c.len() > 0 {
            lemma_cmp_chars(a.drop_first(), b.drop_first(), c.drop_first());
        } else {
            lemma_cmp_chars(a.drop_first(), b.drop_first(), c);
        }
        if a.drop_first() == b.drop_first() && a[0] == b[0] {
            assert(a =~= seq![a[0]] + a.drop_first());
            assert(b =~= seq![b[0]] + b.drop_first());
        }
    } else if a.len() > 0 && c.len() > 0 {
        lemma_cmp_chars(a.drop_first(), b, c.drop_first());
    }
    if a.len() == 0 && b.len() == 0 {
        assert(a =~= b);
    }
}

/// Case-insensitive name order, then version order; `None` where the
/// versions have no order.
pub open spec fn package_compare(a: Package, b: Package) -> Option<int> {
    let n = cmp_chars(lower_of(a.name@), lower_of(b.name@));
    if n != 0 { Some(n) } else { a.version.spec_compare(&b.version) }
}

/// The text `name-version`.
pub open spec fn package_text(p: Package) -> Seq<char> {
    p.name@ + seq!['-'] + p.version.text()
}

impl Package {
    /// A package from a name and version text, without provenance.
    pub fn from_name_and_version(name: &str, version: &str) -> (r: Option<Package>)
        ensures
            r matches Some(p) && p.name@ == name@ && p.version.parsed_from(version@) && p.direct_url is None,
    {
        Some(Package { name: String::from_str(name), version: VersionSpec::parse(version), direct_url: None })
    }

    /// A package from a name, version text and provenance.
    pub fn from_name_version_direct_url(name: &str, version: &str, direct_url: Option<DirectUrl>) -> (r: Option<Package>)
        ensures
            r matches Some(p) && p.name@ == name@ && p.version.parsed_from(version@) && p.direct_url == direct_url,
    {
        Some(Package { name: String::from_str(name), version: VersionSpec::parse(version), direct_url })
    }

    /// The package named by a distribution-metadata directory name
    /// `<name>-<version>.dist-info`: the version is what follows the last
    /// `-`, the name all that precedes it.
    pub fn from_dist_info(input: &str) -> (r: Option<Package>)
        ensures
            r is Some <==> has_dist_suffix(input@) && last_dash(stem(input@)) >= 0,
            r matches Some(p) ==> {
                let t = stem(input@);
                let k = last_dash(t);
                &&& p.name@ == t.subrange(0, k)
                &&& p.version.parsed_from(t.subrange(k + 1, t.len() as int))
                &&& p.direct_url is None
            },
    {
        Self::from_dir_name(input, None)
    }

    /// The package of a directory entry named `file_name`: only a directory
    /// names a package, read as by `from_dist_info`, with the provenance
    /// found beside it.
    pub fn from_file_path(file_name: &str, is_dir: bool, direct_url: Option<DirectUrl>) -> (r: Option<Package>)
        ensures
            r is Some <==> is_dir && has_dist_suffix(file_name@) && last_dash(stem(file_name@)) >= 0,
            r matches Some(p) ==> {
                let t = stem(file_name@);
                let k = last_dash(t);
                &&& p.name@ == t.subrange(0, k)
                &&& p.version.parsed_from(t.subrange(k + 1, t.len() as int))
                &&& p.direct_url == direct_url
            },
    {
        if !is_dir {
            return None;
        }
        Self::from_dir_name(file_name, direct_url)
    }

    fn from_dir_name(input: &str, direct_url: Option<DirectUrl>) -> (r: Option<Package>)
        ensures
            r is Some <==> has_dist_suffix(input@) && last_dash(stem(input@)) >= 0,
            r matches Some(p) ==> {
                let t = stem(input@);
                let k = last_dash(t);
                &&& p.name@ == t.subrange(0, k)
                &&& p.version.parsed_from(t.subrange(k + 1, t.len() as int))
                &&& p.direct_url == direct_url
            },
    {
        let c = chars_of(input);
        let suffix = vec!['.', 'd', 'i', 's', 't', '-', 'i', 'n', 'f', 'o'];
        assert(suffix@ =~= dist_suffix());
        if c.len() < 10 || !occurs_at(&c, c.len() - 10, &suffix) {
            return None;
        }
        let n: usize = c.len() - 10;
        let ghost t = stem(c@);
        let mut k: usize = n;
        while k > 0 && c[k - 1] != '-'
            invariant
                k <= n,
                n == c@.len() - 10,
                t == c@.subrange(0, n as int),
                forall|j: int| k <= j < n ==> t[j] != '-',
            decreases k,
        {
            k -= 1;
        }
        proof {
            lemma_last_dash_prefix(t, k as int);
        }
        if k == 0 {
            assert(t.subrange(0, 0).len() == 0);
            return None;
        }
        proof {
            let u = t.subrange(0, k as int);
            assert(u.last() == '-');
        }
        let name = string_of(&c, 0, k - 1);
        let vtext = string_of(&c, k, n);
        let version = VersionSpec::parse(vtext.as_str());
        assert(t.subrange(0, k - 1) =~= c@.subrange(0, k - 1));
        assert(t.subrange(k as int, t.len() as int) =~= c@.subrange(k as int, n as int));
        Some(Package { name, version, direct_url })
    }

    /// The text `name-version`.
    pub fn to_string(&self) -> (r: String)
        ensures
            r@ == package_text(*self),
    {
        let mut r = self.name.clone();
        r.append("-");
        proof { reveal_strlit("-"); }
        let v = self.version.to_string();
        r.append(v.as_str());
        r
    }

    /// The text `<Package: name-version>`.
    pub fn debug_string(&self) -> (r: String)
        ensures
            r@ == seq!['<', 'P', 'a', 'c', 'k', 'a', 'g', 'e', ':', ' '] + package_text(*self) + seq!['>'],
    {
        let mut r = String::from_str("<Package: ");
        proof { reveal_strlit("<Package: "); }
        let t = self.to_string();
        r.append(t.as_str());
        r.append(">");
        proof { reveal_strlit(">"); }
        r
    }

    /// Orders by name without regard to case, then by version.
    pub fn compare(&self, other: &Package) -> (r: Option<Ordering>)
        ensures
            r == ordering_of(package_compare(*self, *other)),
    {
        let a = chars_of(lowercase(self.name.as_str()).as_str());
        let b = chars_of(lowercase(other.name.as_str()).as_str());
        let n = compare_chars(&a, &b);
        if n < 0 {
            Some(Ordering::Less)
        } else if n > 0 {
            Some(Ordering::Greater)
        } else {
            self.version.compare(&other.version)
        }
    }
}

/// Equality is over name and version; provenance is not part of identity.
pub open spec fn package_eq(a: Package, b: Package) -> bool {
    a.name@ == b.name@ && a.version.spec_compare(&b.version) == Some(0int)
}

impl PartialEq for Package {
    fn eq(&self, other: &Package) -> (r: bool)
        ensures
            r == package_eq(*self, *other),
    {
        if self.name != other.name {
            return false;
        }
        match self.version.compare(&other.version) {
            Some(Ordering::Equal) => true,
            _ => false,
        }
    }
}

impl vstd::std_specs::cmp::PartialEqSpecImpl for Package {
    open spec fn obeys_eq_spec() -> bool {
        true
    }

    open spec fn eq_spec(&self, other: &Package) -> bool {
        package_eq(*self, *other)
    }
}

impl PartialOrd for Package {
    fn partial_cmp(&self, other: &Package) -> (r: Option<Ordering>)
        ensures
            r == ordering_of(package_compare(*self, *other)),
    {
        self.compare(other)
    }
}

impl vstd::std_specs::cmp::PartialOrdSpecImpl for Package {
    open spec fn obeys_partial_cmp_spec() -> bool {
        true
    }

    open spec fn partial_cmp_spec(&self, other: &Package) -> Option<Ordering> {
        ordering_of(package_compare(*self, *other))
    }
}

/// Packages read from the same name and the same version text are equal,
/// whatever their provenance: two reads of one metadata directory, or of
/// two paths to it, give one package.
pub proof fn lemma_same_text_same_package(a: Package, b: Package, v: Seq<char>)
    requires
        a.name@ == b.name@,
        a.version.parsed_from(v),
        b.version.parsed_from(v),
    ensures
        package_eq(a, b),
{
    lemma_same_text_equal(a.version, b.version, v);
}

} // verus!
