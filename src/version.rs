//! Release versions: parsing, canonical text, ordering and constraint checks.
use vstd::prelude::*;
use crate::text::{canonical_number, chars_of, decimal, digit_end, digits, is_digit, lemma_digit_end_at, lemma_digits_canonical, occurs_at, read_number, string_of, value_of};
use core::cmp::Ordering;
use crate::package::{cmp_chars, compare_chars, lemma_cmp_chars};

verus! {

/// The kind of a pre-release marker, in increasing order.
#[derive(PartialEq, Eq, Structural, Clone, Copy, Debug)]
pub enum PreKind {
    Alpha,
    Beta,
    Candidate,
}

/// One segment of a local-version label: a number, or text holding at
/// least one letter.
#[derive(Clone, Debug)]
pub enum LocalPart {
    Num(u64),
    Alpha(String),
}

/// A version: either parsed into its components, or kept as the raw text
/// that could not be parsed. An empty `local` means no local label.
#[derive(Clone, Debug)]
pub enum VersionSpec {
    Release {
        release: Vec<u64>,
        pre: Option<(PreKind, u64)>,
        post: Option<u64>,
        dev: Option<u64>,
        local: Vec<LocalPart>,
    },
    Raw { text: String },
}

// ---------------------------------------------------------------------------
// Lexicographic comparison of integer sequences, padded with zeros.

/// Element `i` of `s`, or zero past its end.
pub open spec fn seg(s: Seq<int>, i: int) -> int {
    if 0 <= i < s.len() { s[i] } else { 0 }
}

pub open spec fn cmp_int(x: int, y: int) -> int {
    if x < y { -1 } else if x > y { 1 } else { 0 }
}

pub open spec fn lex_from(a: Seq<int>, b: Seq<int>, i: int, n: int) -> int
    decreases n - i,
{
    if i >= n {
        0
    } else if seg(a, i) != seg(b, i) {
        cmp_int(seg(a, i), seg(b, i))
    } else {
        lex_from(a, b, i + 1, n)
    }
}

pub open spec fn max_len(a: Seq<int>, b: Seq<int>) -> int {
    if a.len() >= b.len() { a.len() as int } else { b.len() as int }
}

/// Compares two sequences after padding the shorter one with zeros:
/// -1, 0 or 1.
pub open spec fn lex(a: Seq<int>, b: Seq<int>) -> int {
    lex_from(a, b, 0, max_len(a, b))
}

proof fn lemma_lex_from_range(a: Seq<int>, b: Seq<int>, i: int, n: int)
    ensures
        -1 <= lex_from(a, b, i, n) <= 1,
        lex_from(a, b, i, n) == -lex_from(b, a, i, n),
        lex_from(a, b, i, n) == 0 <==> forall|j: int| i <= j < n ==> seg(a, j) == seg(b, j),
    decreases n - i,
{
    if i < n {
        lemma_lex_from_range(a, b, i + 1, n);
        if seg(a, i) != seg(b, i) {
            assert(!(forall|j: int| i <= j < n ==> seg(a, j) == seg(b, j)));
        } else {
            assert forall|j: int| i <= j < n && (forall|k: int| i + 1 <= k < n ==> seg(a, k) == seg(b, k)) implies seg(a, j) == seg(b, j) by {
                if j > i {
                    assert(seg(a, j) == seg(b, j));
                }
            }
        }
    }
}

proof fn lemma_lex_from_extend(a: Seq<int>, b: Seq<int>, i: int, n: int, m: int)
    requires
        max_len(a, b) <= n <= m,
        0 <= i,
    ensures
        lex_from(a, b, i, n) == lex_from(a, b, i, m),
    decreases m - i,
{
    if i < m {
        lemma_lex_from_extend(a, b, i + 1, n, m);
        if i >= n {
            assert(seg(a, i) == 0 && seg(b, i) == 0);
        }
    }
}

proof fn lemma_lex_from_trans(a: Seq<int>, b: Seq<int>, c: Seq<int>, i: int, n: int)
    requires
        lex_from(a, b, i, n) <= 0,
        lex_from(b, c, i, n) <= 0,
    ensures
        lex_from(a, c, i, n) <= 0,
        lex_from(a, c, i, n) == 0 ==> lex_from(a, b, i, n) == 0 && lex_from(b, c, i, n) == 0,
    decreases n - i,
{
    if i < n {
        if seg(a, i) == seg(b, i) && seg(b, i) == seg(c, i) {
            lemma_lex_from_trans(a, b, c, i + 1, n);
        }
    }
}

/// The zero-padded comparison agrees at any common bound at least as long
/// as both sequences.
proof fn lemma_lex_at(a: Seq<int>, b: Seq<int>, n: int)
    requires
        max_len(a, b) <= n,
    ensures
        lex(a, b) == lex_from(a, b, 0, n),
{
    lemma_lex_from_extend(a, b, 0, max_len(a, b), n);
}

/// `lex` is a total order on zero-padded sequences.
pub proof fn lemma_lex_order(a: Seq<int>, b: Seq<int>, c: Seq<int>)
    ensures
        -1 <= lex(a, b) <= 1,
        lex(a, b) == -lex(b, a),
        lex(a, b) == 0 <==> forall|j: int| seg(a, j) == seg(b, j),
        lex(a, b) <= 0 && lex(b, c) <= 0 ==> lex(a, c) <= 0,
        lex(a, b) <= 0 && lex(b, c) <= 0 && lex(a, c) == 0 ==> lex(a, b) == 0 && lex(b, c) == 0,
{
    let n = max_len(a, b);
    lemma_lex_from_range(a, b, 0, n);
    lemma_lex_from_range(b, a, 0, max_len(b, a));
    assert(max_len(a, b) == max_len(b, a));
    if lex(a, b) == 0 {
        assert forall|j: int| seg(a, j) == seg(b, j) by {
            if !(0 <= j < n) {
                assert(seg(a, j) == 0 && seg(b, j) == 0);
            }
        }
    }
    let m = if n >= c.len() { n } else { c.len() as int };
    lemma_lex_at(a, b, m);
    lemma_lex_at(b, c, m);
    lemma_lex_at(a, c, m);
    if lex(a, b) <= 0 && lex(b, c) <= 0 {
        lemma_lex_from_trans(a, b, c, 0, m);
    }
}

// ---------------------------------------------------------------------------
// Canonical text.

pub open spec fn join_release(r: Seq<u64>) -> Seq<char>
    decreases r.len(),
{
    if r.len() == 0 {
        Seq::empty()
    } else if r.len() == 1 {
        digits(r[0] as nat)
    } else {
        join_release(r.drop_last()) + seq!['.'] + digits(r.last() as nat)
    }
}

pub open spec fn pre_text(pre: Option<(PreKind, u64)>) -> Seq<char> {
    match pre {
        None => Seq::empty(),
        Some((PreKind::Alpha, n)) => seq!['a'] + digits(n as nat),
        Some((PreKind::Beta, n)) => seq!['b'] + digits(n as nat),
        Some((PreKind::Candidate, n)) => seq!['r', 'c'] + digits(n as nat),
    }
}

pub open spec fn post_word() -> Seq<char> {
    seq!['.', 'p', 'o', 's', 't']
}

pub open spec fn dev_word() -> Seq<char> {
    seq!['.', 'd', 'e', 'v']
}

pub open spec fn opt_text(word: Seq<char>, n: Option<u64>) -> Seq<char> {
    match n {
        None => Seq::empty(),
        Some(n) => word + digits(n as nat),
    }
}

// ---------------------------------------------------------------------------
// Ordering keys.

pub open spec fn suffix_key_of(pre: Option<(PreKind, u64)>, post: Option<u64>, dev: Option<u64>) -> Seq<int> {
    seq![
        pre_rank(pre, post, dev),
        match pre { Some((_, n)) => n as int, None => 0 },
        match post { Some(n) => n + 1, None => 0 },
        match dev { Some(_) => 0, None => 1 },
        match dev { Some(n) => n as int, None => 0 },
    ]
}

pub open spec fn pre_rank(pre: Option<(PreKind, u64)>, post: Option<u64>, dev: Option<u64>) -> int {
    match pre {
        Some((PreKind::Alpha, _)) => 1,
        Some((PreKind::Beta, _)) => 2,
        Some((PreKind::Candidate, _)) => 3,
        None => if post is None && dev is Some { 0 } else { 4 },
    }
}

pub open spec fn is_alnum(c: char) -> bool {
    ('a' <= c && c <= 'z') || ('A' <= c && c <= 'Z') || is_digit(c)
}

/// Text of a label segment: ASCII letters and digits, with at least one
/// letter.
pub open spec fn alpha_ok(t: Seq<char>) -> bool {
    &&& t.len() > 0
    &&& forall|i: int| 0 <= i < t.len() ==> is_alnum(#[trigger] t[i])
    &&& exists|i: int| 0 <= i < t.len() && !is_digit(#[trigger] t[i])
}

pub open spec fn part_wf(p: LocalPart) -> bool {
    match p {
        LocalPart::Num(_) => true,
        LocalPart::Alpha(s) => alpha_ok(s@),
    }
}

pub open spec fn part_text(p: LocalPart) -> Seq<char> {
    match p {
        LocalPart::Num(n) => digits(n as nat),
        LocalPart::Alpha(s) => s@,
    }
}

/// What identifies a label segment.
pub open spec fn part_key(p: LocalPart) -> (int, Seq<char>) {
    match p {
        LocalPart::Num(n) => (n as int, Seq::empty()),
        LocalPart::Alpha(s) => (-1, s@),
    }
}

pub open spec fn join_local(l: Seq<LocalPart>) -> Seq<char>
    decreases l.len(),
{
    if l.len() == 0 {
        Seq::empty()
    } else if l.len() == 1 {
        part_text(l[0])
    } else {
        join_local(l.drop_last()) + seq!['.'] + part_text(l.last())
    }
}

/// `+` and the label's segments separated by `.`; nothing without a label.
pub open spec fn local_text(l: Seq<LocalPart>) -> Seq<char> {
    if l.len() == 0 { Seq::empty() } else { seq!['+'] + join_local(l) }
}

/// Segments compare numbers numerically, text lexically, and a number
/// above text.
pub open spec fn part_cmp(a: LocalPart, b: LocalPart) -> int {
    match (a, b) {
        (LocalPart::Num(m), LocalPart::Num(n)) => cmp_int(m as int, n as int),
        (LocalPart::Num(_), LocalPart::Alpha(_)) => 1,
        (LocalPart::Alpha(_), LocalPart::Num(_)) => -1,
        (LocalPart::Alpha(s), LocalPart::Alpha(t)) => cmp_chars(s@, t@),
    }
}

/// Labels compare segment by segment; a label that is a proper prefix of
/// another is smaller, so any label is above none.
pub open spec fn local_cmp(a: Seq<LocalPart>, b: Seq<LocalPart>) -> int
    decreases a.len(),
{
    if a.len() == 0 && b.len() == 0 {
        0
    } else if a.len() == 0 {
        -1
    } else if b.len() == 0 {
        1
    } else if part_cmp(a[0], b[0]) != 0 {
        part_cmp(a[0], b[0])
    } else {
        local_cmp(a.drop_first(), b.drop_first())
    }
}

/// Two labels with the same segments.
pub open spec fn local_eq(a: Seq<LocalPart>, b: Seq<LocalPart>) -> bool {
    a.len() == b.len() && forall|i: int| 0 <= i < a.len() ==> part_key(#[trigger] a[i]) == part_key(b[i])
}

proof fn lemma_part_cmp(a: LocalPart, b: LocalPart, c: LocalPart)
    ensures
        -1 <= part_cmp(a, b) <= 1,
        part_cmp(a, b) == -part_cmp(b, a),
        part_cmp(a, b) == 0 <==> part_key(a) == part_key(b),
        part_cmp(a, b) < 0 && part_cmp(b, c) < 0 ==> part_cmp(a, c) < 0,
{
    match (a, b, c) {
        (LocalPart::Alpha(s), LocalPart::Alpha(t), LocalPart::Alpha(u)) => {
            lemma_cmp_chars(s@, t@, u@);
            lemma_cmp_chars_range(s@, t@);
        },
        (LocalPart::Alpha(s), LocalPart::Alpha(t), _) => {
            lemma_cmp_chars(s@, t@, t@);
            lemma_cmp_chars_range(s@, t@);
        },
        _ => {},
    }
}

proof fn lemma_cmp_chars_range(a: Seq<char>, b: Seq<char>)
    ensures
        -1 <= cmp_chars(a, b) <= 1,
    decreases a.len(),
{
    if a.len() > 0 && b.len() > 0 {
        lemma_cmp_chars_range(a.drop_first(), b.drop_first());
    }
}

/// `local_cmp` is a strict total order on labels, up to `local_eq`.
pub proof fn lemma_local_cmp(a: Seq<LocalPart>, b: Seq<LocalPart>, c: Seq<LocalPart>)
    ensures
        -1 <= local_cmp(a, b) <= 1,
        local_cmp(a, b) == -local_cmp(b, a),
        local_cmp(a, b) == 0 <==> local_eq(a, b),
        local_cmp(a, b) < 0 && local_cmp(b, c) < 0 ==> local_cmp(a, c) < 0,
        local_eq(a, b) && local_cmp(b, c) < 0 ==> local_cmp(a, c) < 0,
        local_cmp(a, b) < 0 && local_eq(b, c) ==> local_cmp(a, c) < 0,
    decreases a.len(),
{
    if a.len() > 0 && b.len() > 0 {
        let (a1, b1) = (a.drop_first(), b.drop_first());
        if c.len() > 0 {
            lemma_part_cmp(a[0], b[0], c[0]);
            lemma_part_cmp(b[0], c[0], a[0]);
            lemma_part_cmp(a[0], c[0], b[0]);
            lemma_local_cmp(a1, b1, c.drop_first());
            // equal heads carry through part_key
            if part_key(a[0]) == part_key(b[0]) {
                lemma_part_cmp(a[0], b[0], c[0]);
                lemma_part_key_cmp(a[0], b[0], c[0]);
            }
            if part_key(b[0]) == part_key(c[0]) {
                lemma_part_key_cmp2(a[0], b[0], c[0]);
            }
        } else {
            lemma_part_cmp(a[0], b[0], b[0]);
            lemma_local_cmp(a1, b1, c);
        }
        if local_eq(a1, b1) && part_key(a[0]) == part_key(b[0]) {
            assert forall|i: int| 0 <= i < a.len() implies part_key(#[trigger] a[i]) == part_key(b[i]) by {
                if i > 0 {
                    assert(a[i] == a1[i - 1] && b[i] == b1[i - 1]);
                }
            }
        }
        if local_eq(a, b) {
            assert forall|i: int| 0 <= i < a1.len() implies part_key(#[trigger] a1[i]) == part_key(b1[i]) by {
                assert(a1[i] == a[i + 1] && b1[i] == b[i + 1]);
            }
            assert(part_key(a[0]) == part_key(b[0]));
        }
        if c.len() > 0 {
            let c1 = c.drop_first();
            if local_eq(b, c) {
                assert forall|i: int| 0 <= i < b1.len() implies part_key(#[trigger] b1[i]) == part_key(c1[i]) by {
                    assert(b1[i] == b[i + 1] && c1[i] == c[i + 1]);
                }
                assert(part_key(b[0]) == part_key(c[0]));
            }
        }
    } else if a.len() > 0 && c.len() > 0 {
        lemma_part_cmp(a[0], c[0], c[0]);
    }
}

/// Segments with the same key compare alike against a third.
proof fn lemma_part_key_cmp(a: LocalPart, b: LocalPart, c: LocalPart)
    requires
        part_key(a) == part_key(b),
    ensures
        part_cmp(a, c) == part_cmp(b, c),
{
}

proof fn lemma_part_key_cmp2(a: LocalPart, b: LocalPart, c: LocalPart)
    requires
        part_key(b) == part_key(c),
    ensures
        part_cmp(a, b) == part_cmp(a, c),
{
}

impl VersionSpec {
    /// A parsed version has at least one release segment.
    pub open spec fn wf(&self) -> bool {
        match self {
            VersionSpec::Release { release, local, .. } => release@.len() >= 1
                && forall|i: int| 0 <= i < local@.len() ==> part_wf(#[trigger] local@[i]),
            VersionSpec::Raw { .. } => true,
        }
    }

    /// The canonical text of the version; the raw text for an unparsed one.
    pub open spec fn text(&self) -> Seq<char> {
        match self {
            VersionSpec::Release { release, pre, post, dev, local } =>
                join_release(release@) + pre_text(*pre) + opt_text(post_word(), *post) + opt_text(dev_word(), *dev)
                    + local_text(local@),
            VersionSpec::Raw { text } => text@,
        }
    }

    /// The release segments as integers.
    pub open spec fn release_key(&self) -> Seq<int> {
        match self {
            VersionSpec::Release { release, .. } => release@.map_values(|x: u64| x as int),
            VersionSpec::Raw { .. } => Seq::empty(),
        }
    }

    /// What orders versions with equal release segments: pre-release rank
    /// and number, post-release, then dev-release (absent dev sorts last).
    pub open spec fn suffix_key(&self) -> Seq<int> {
        match self {
            VersionSpec::Release { pre, post, dev, .. } => suffix_key_of(*pre, *post, *dev),
            VersionSpec::Raw { .. } => Seq::empty(),
        }
    }

    /// -1, 0 or 1 between two parsed versions; for unparsed ones `Some(0)`
    /// exactly on identical text, and otherwise no order.
    pub open spec fn spec_compare(&self, other: &VersionSpec) -> Option<int> {
        match (self, other) {
            (VersionSpec::Release { local: la, .. }, VersionSpec::Release { local: lb, .. }) => {
                let r = lex(self.release_key(), other.release_key());
                let t = lex(self.suffix_key(), other.suffix_key());
                Some(if r != 0 { r } else if t != 0 { t } else { local_cmp(la@, lb@) })
            },
            (VersionSpec::Raw { text: a }, VersionSpec::Raw { text: b }) =>
                if a@ == b@ { Some(0) } else { None },
            _ => None,
        }
    }
}


pub open spec fn ints(v: Seq<i128>) -> Seq<int> {
    v.map_values(|x: i128| x as int)
}

/// Zero-padded lexicographic comparison of two key vectors.
fn lex_keys(a: &Vec<i128>, b: &Vec<i128>) -> (r: i8)
    ensures
        r as int == lex(ints(a@), ints(b@)),
{
    let ghost ka = ints(a@);
    let ghost kb = ints(b@);
    let n: usize = if a.len() >= b.len() { a.len() } else { b.len() };
    assert(n == max_len(ka, kb));
    let mut i: usize = 0;
    while i < n
        invariant
            ka == ints(a@),
            kb == ints(b@),
            n == max_len(ka, kb),
            i <= n,
            lex(ka, kb) == lex_from(ka, kb, i as int, n as int),
        decreases n - i,
    {
        let x: i128 = if i < a.len() { a[i] } else { 0 };
        let y: i128 = if i < b.len() { b[i] } else { 0 };
        assert(x as int == seg(ka, i as int));
        assert(y as int == seg(kb, i as int));
        if x < y {
            return -1;
        } else if x > y {
            return 1;
        }
        i += 1;
    }
    0
}

fn release_keys(r: &Vec<u64>) -> (k: Vec<i128>)
    ensures
        ints(k@) == r@.map_values(|x: u64| x as int),
{
    let mut k: Vec<i128> = Vec::new();
    let mut i: usize = 0;
    while i < r.len()
        invariant
            i <= r.len(),
            k@.len() == i,
            forall|j: int| 0 <= j < i ==> k@[j] as int == r@[j] as int,
        decreases r.len() - i,
    {
        k.push(r[i] as i128);
        i += 1;
    }
    assert(ints(k@) =~= r@.map_values(|x: u64| x as int));
    k
}

fn suffix_keys(pre: Option<(PreKind, u64)>, post: Option<u64>, dev: Option<u64>) -> (k: Vec<i128>)
    ensures
        ints(k@) == suffix_key_of(pre, post, dev),
{
    let rank: i128 = match pre {
        Some((PreKind::Alpha, _)) => 1,
        Some((PreKind::Beta, _)) => 2,
        Some((PreKind::Candidate, _)) => 3,
        None => if post.is_none() && dev.is_some() { 0 } else { 4 },
    };
    let pre_n: i128 = match pre { Some((_, n)) => n as i128, None => 0 };
    let post_n: i128 = match post { Some(n) => n as i128 + 1, None => 0 };
    let dev_r: i128 = match dev { Some(_) => 0, None => 1 };
    let dev_n: i128 = match dev { Some(n) => n as i128, None => 0 };
    let k = vec![rank, pre_n, post_n, dev_r, dev_n];
    assert(ints(k@) =~= suffix_key_of(pre, post, dev));
    k
}

/// Version ordering is total on parsed versions: antisymmetric and
/// transitive, and two versions compare equal exactly when their release
/// segments agree after zero padding and their other components, local
/// label included, agree.
pub proof fn lemma_version_total_order(a: VersionSpec, b: VersionSpec, c: VersionSpec)
    requires
        a is Release,
        b is Release,
        c is Release,
    ensures
        a.spec_compare(&b) is Some,
        a.spec_compare(&b) == Some(-1int) || a.spec_compare(&b) == Some(0int) || a.spec_compare(&b) == Some(1int),
        a.spec_compare(&b)->0 == -(b.spec_compare(&a)->0),
        a.spec_compare(&b) == Some(0int) <==> (forall|j: int| seg(a.release_key(), j) == seg(b.release_key(), j))
            && a.suffix_key() == b.suffix_key() && local_eq(a->Release_local@, b->Release_local@),
        a.spec_compare(&b)->0 <= 0 && b.spec_compare(&c)->0 <= 0 ==> a.spec_compare(&c)->0 <= 0,
        a.spec_compare(&b)->0 < 0 && b.spec_compare(&c)->0 <= 0 ==> a.spec_compare(&c)->0 < 0,
        a.spec_compare(&b)->0 <= 0 && b.spec_compare(&c)->0 < 0 ==> a.spec_compare(&c)->0 < 0,
{
    let (ra, rb, rc) = (a.release_key(), b.release_key(), c.release_key());
    let (sa, sb, sc) = (a.suffix_key(), b.suffix_key(), c.suffix_key());
    let (la, lb, lc) = (a->Release_local@, b->Release_local@, c->Release_local@);
    lemma_lex_order(ra, rb, rc);
    lemma_lex_order(rb, ra, rc);
    lemma_lex_order(rb, rc, ra);
    lemma_lex_order(ra, rc, rb);
    lemma_lex_order(sa, sb, sc);
    lemma_lex_order(sb, sa, sc);
    lemma_lex_order(sb, sc, sa);
    lemma_lex_order(sa, sc, sb);
    lemma_lex_order(rc, rb, ra);
    lemma_lex_order(sc, sb, sa);
    lemma_local_cmp(la, lb, lc);
    lemma_local_cmp(lb, la, lc);
    lemma_local_cmp(lb, lc, la);
    lemma_local_cmp(la, lc, lb);
    lemma_local_cmp(lc, lb, la);
    if local_eq(la, lb) && local_eq(lb, lc) {
        assert forall|i: int| 0 <= i < la.len() implies part_key(#[trigger] la[i]) == part_key(lc[i]) by {
            assert(part_key(la[i]) == part_key(lb[i]));
            assert(part_key(lb[i]) == part_key(lc[i]));
        }
        assert(local_eq(la, lc));
    }
    if lex(sa, sb) == 0 {
        assert(sa =~= sb) by {
            assert(forall|j: int| seg(sa, j) == seg(sb, j));
            assert forall|j: int| 0 <= j < 5 implies sa[j] == sb[j] by {
                assert(seg(sa, j) == seg(sb, j));
            }
        }
    }
    if sa == sb {
        assert forall|j: int| seg(sa, j) == seg(sb, j) by {}
    }
    if ra_eq_all(ra, rb) && ra_eq_all(rb, rc) {
        assert forall|j: int| seg(ra, j) == seg(rc, j) by {
            assert(seg(ra, j) == seg(rb, j));
            assert(seg(rb, j) == seg(rc, j));
        }
    }
}

spec fn ra_eq_all(x: Seq<int>, y: Seq<int>) -> bool {
    forall|j: int| seg(x, j) == seg(y, j)
}

pub open spec fn ordering_of(x: Option<int>) -> Option<Ordering> {
    match x {
        Some(v) => Some(if v < 0 { Ordering::Less } else if v > 0 { Ordering::Greater } else { Ordering::Equal }),
        None => None,
    }
}

/// What the text of a parsed version says after its release segments.
pub open spec fn tail_text(pre: Option<(PreKind, u64)>, post: Option<u64>, dev: Option<u64>) -> Seq<char> {
    pre_text(pre) + opt_text(post_word(), post) + opt_text(dev_word(), dev)
}

impl VersionSpec {
    /// What `parse` returns for `s`: a parsed version whose canonical text
    /// is `s` where there is one, else the raw text `s`.
    pub open spec fn parsed_from(&self, s: Seq<char>) -> bool {
        &&& self.wf()
        &&& self.text() == s
        &&& (self is Release <==> in_grammar(s))
        &&& (self is Release ==> same_fields(*self, canonical_of(s)))
    }

    /// Parses version text; text outside the grammar
    /// `N(.N)*[(a|b|rc)N][.postN][.devN]` (numbers without leading zeros,
    /// each fitting in 64 bits) is kept raw.
    pub fn parse(s: &str) -> (r: VersionSpec)
        ensures
            r.parsed_from(s@),
    {
        let c = chars_of(s);
        Self::from_chars(&c)
    }

    /// Parses the version text held in `c`, keeping it raw where it does
    /// not parse.
    pub fn from_chars(c: &Vec<char>) -> (r: VersionSpec)
        ensures
            r.parsed_from(c@),
    {
        match Self::parse_chars(c) {
            Some(v) => v,
            None => {
                assert(c@.subrange(0, c.len() as int) =~= c@);
                VersionSpec::Raw { text: string_of(c, 0, c.len()) }
            },
        }
    }

    /// Parses the version text held in `c`: a parsed version exactly when
    /// `c` is the canonical text of one.
    pub fn parse_chars(c: &Vec<char>) -> (r: Option<VersionSpec>)
        ensures
            r matches Some(v) ==> v is Release && v.parsed_from(c@),
            c@.len() > 0 && !is_digit(c@[0]) ==> r is None,
            in_grammar(c@) ==> r is Some,
    {
        let ghost ok = in_grammar(c@);
        let ghost tv = canonical_of(c@);
        let ghost (rv, pt, qt, dt, lt) = match tv {
            VersionSpec::Release { release, pre, post, dev, local } => (release@, pre, post, dev, local@),
            _ => (Seq::empty(), None, None, None, Seq::empty()),
        };
        proof {
            if ok {
                lemma_targets(c@, tv);
            }
        }
        let (rel, i1) = match parse_release(c, Ghost(rv)) {
            None => { return None; },
            Some(p) => p,
        };
        let (pre, i2) = match parse_pre(c, i1, Ghost(pt)) {
            None => { return None; },
            Some(p) => p,
        };
        let post_w = vec!['.', 'p', 'o', 's', 't'];
        assert(post_w@ =~= post_word());
        let (post, i3) = match parse_marked(c, i2, &post_w, Ghost(qt)) {
            None => { return None; },
            Some(p) => p,
        };
        let dev_w = vec!['.', 'd', 'e', 'v'];
        assert(dev_w@ =~= dev_word());
        let (dev, i4) = match parse_marked(c, i3, &dev_w, Ghost(dt)) {
            None => { return None; },
            Some(p) => p,
        };
        proof {
            if ok && lt.len() == 0 {
                assert(i4 == c.len());
            }
        }
        let (local, i5) = match parse_local(c, i4, Ghost(lt)) {
            None => { return None; },
            Some(p) => p,
        };
        if i5 != c.len() {
            return None;
        }
        proof {
            assert(c@ =~= c@.subrange(0, i1 as int) + c@.subrange(i1 as int, i2 as int)
                + c@.subrange(i2 as int, i3 as int) + c@.subrange(i3 as int, i4 as int)
                + c@.subrange(i4 as int, i5 as int));
        }
        let r = VersionSpec::Release { release: rel, pre, post, dev, local };
        assert(r.wf() && r.text() == c@);
        assert(in_grammar(c@));
        Some(r)
    }
}

/// A parsed version whose canonical text is `s`, where there is one.
pub open spec fn canonical_of(s: Seq<char>) -> VersionSpec {
    choose|v: VersionSpec| v is Release && v.wf() && v.text() == s
}

/// Two parsed versions with the same components; label segments are
/// compared by their key.
pub open spec fn same_fields(a: VersionSpec, b: VersionSpec) -> bool {
    match (a, b) {
        (VersionSpec::Release { release: r1, pre: p1, post: q1, dev: d1, local: l1 },
         VersionSpec::Release { release: r2, pre: p2, post: q2, dev: d2, local: l2 }) =>
            r1@ == r2@ && p1 == p2 && q1 == q2 && d1 == d2 && local_eq(l1@, l2@),
        _ => false,
    }
}

/// Two results of parsing the same text compare equal.
pub proof fn lemma_same_text_equal(a: VersionSpec, b: VersionSpec, s: Seq<char>)
    requires
        a.parsed_from(s),
        b.parsed_from(s),
    ensures
        a.spec_compare(&b) == Some(0int),
{
    if a is Release {
        let c = canonical_of(s);
        assert(b is Release);
        lemma_version_total_order(a, c, b);
        lemma_version_total_order(c, b, a);
        lemma_version_total_order(b, c, a);
        lemma_version_total_order(a, b, c);
        let (la, lb, lc) = (a->Release_local@, b->Release_local@, c->Release_local@);
        assert forall|i: int| 0 <= i < lc.len() implies part_key(#[trigger] lc[i]) == part_key(la[i]) by {
            assert(part_key(la[i]) == part_key(lc[i]));
        }
        assert(local_eq(lc, la));
        assert(a.release_key() == c.release_key());
        assert(b.release_key() == c.release_key());
        assert(a.suffix_key() == c.suffix_key());
        assert(b.suffix_key() == c.suffix_key());
        assert forall|j: int| seg(a.release_key(), j) == seg(c.release_key(), j) by {}
        assert forall|j: int| seg(c.release_key(), j) == seg(b.release_key(), j) by {}
    }
}

/// `s` is the canonical text of some parsed version.
pub open spec fn in_grammar(s: Seq<char>) -> bool {
    exists|v: VersionSpec| v is Release && v.wf() && v.text() == s
}



/// The canonical text of a parsed version meets what each stage of the
/// parser needs to read it back.
proof fn lemma_targets(c: Seq<char>, v: VersionSpec)
    requires
        v is Release,
        v.wf(),
        v.text() == c,
    ensures
        match v {
            VersionSpec::Release { release, pre, post, dev, local } => {
                let j1 = join_release(release@).len() as int;
                let j2 = j1 + pre_text(pre).len();
                let j3 = j2 + opt_text(post_word(), post).len();
                let j4 = j3 + opt_text(dev_word(), dev).len();
                &&& release_target(c, release@)
                &&& pre_target(c, j1, pre)
                &&& marked_target(c, j2, post_word(), post)
                &&& marked_target(c, j3, dev_word(), dev)
                &&& (local@.len() == 0 ==> j4 == c.len())
                &&& (local@.len() > 0 ==> local_target(c, j4, local@))
            },
            _ => false,
        },
{
    match v {
        VersionSpec::Release { release, pre, post, dev, local } => {
            let jr = join_release(release@);
            let p = pre_text(pre);
            let q = opt_text(post_word(), post);
            let d = opt_text(dev_word(), dev);
            let lt = local_text(local@);
            let j1 = jr.len() as int;
            let j2 = j1 + p.len();
            let j3 = j2 + q.len();
            let j4 = j3 + d.len();
            let j5 = j4 + lt.len();
            assert(c == jr + p + q + d + lt);
            assert(j5 == c.len());
            match pre {
                Some((_, n)) => { lemma_digits_canonical(n as nat); },
                None => {},
            }
            match post {
                Some(n) => { lemma_digits_canonical(n as nat); },
                None => {},
            }
            match dev {
                Some(n) => { lemma_digits_canonical(n as nat); },
                None => {},
            }
            assert(p.len() > 0 ==> (p[0] == 'a' || p[0] == 'b' || p[0] == 'r'));
            assert(q.len() > 0 ==> q.len() > 5 && q[0] == '.' && q[1] == 'p');
            assert(d.len() > 0 ==> d.len() > 4 && d[0] == '.' && d[1] == 'd');
            assert(lt.len() > 0 ==> lt[0] == '+');
            assert(c.subrange(0, j1) =~= jr);
            assert(c.subrange(j1, j2) =~= p);
            assert(c.subrange(j2, j3) =~= q);
            assert(c.subrange(j3, j4) =~= d);
            assert(c.subrange(j4, j5) =~= lt);
            if j1 < c.len() {
                if p.len() > 0 {
                    assert(c[j1] == p[0]);
                } else if q.len() > 0 {
                    assert(c[j1] == q[0] && c[j1 + 1] == q[1]);
                } else if d.len() > 0 {
                    assert(c[j1] == d[0] && c[j1 + 1] == d[1]);
                } else {
                    assert(c[j1] == lt[0]);
                }
            }
            if j2 < c.len() {
                if q.len() > 0 {
                    assert(c[j2] == q[0]);
                } else if d.len() > 0 {
                    assert(c[j2] == d[0]);
                } else {
                    assert(c[j2] == lt[0]);
                }
            }
            if j3 < c.len() {
                if d.len() > 0 {
                    assert(c[j3] == d[0]);
                } else {
                    assert(c[j3] == lt[0]);
                }
            }
            if j4 < c.len() {
                assert(c[j4] == lt[0]);
            }
            if post is None && j2 + 5 <= c.len() {
                assert(c.subrange(j2, j2 + 5)[1] == c[j2 + 1]);
                assert(c.subrange(j2, j2 + 5)[0] == c[j2]);
                assert(post_word()[1] == 'p');
                if d.len() > 0 {
                    assert(c[j2 + 1] == d[1]);
                } else {
                    assert(c[j2] == lt[0]);
                }
            }
            if dev is None && j3 + 4 <= c.len() {
                assert(c.subrange(j3, j3 + 4)[0] == c[j3]);
                assert(c[j3] == lt[0]);
            }
        },
        _ => {},
    }
}

/// Position `p` of `c` is its end, or holds neither a digit nor a `.`
/// followed by a digit.
pub open spec fn ends_release(c: Seq<char>, p: int) -> bool {
    p == c.len() || (!is_digit(c[p]) && !(c[p] == '.' && p + 1 < c.len() && is_digit(c[p + 1])))
}

/// `c` starts with the release segments `rv`, and they end there.
pub open spec fn release_target(c: Seq<char>, rv: Seq<u64>) -> bool {
    let j = join_release(rv).len() as int;
    &&& rv.len() >= 1
    &&& j <= c.len()
    &&& c.subrange(0, j) == join_release(rv)
    &&& ends_release(c, j)
}

proof fn lemma_join_step(rv: Seq<u64>, k: int)
    requires
        1 <= k < rv.len(),
    ensures
        join_release(rv.subrange(0, k + 1)) == join_release(rv.subrange(0, k)) + seq!['.'] + digits(rv[k] as nat),
{
    let a = rv.subrange(0, k + 1);
    assert(a.drop_last() =~= rv.subrange(0, k));
    assert(a.last() == rv[k]);
}

proof fn lemma_join_prefix(rv: Seq<u64>, k: int)
    requires
        1 <= k <= rv.len(),
    ensures
        join_release(rv.subrange(0, k)).len() <= join_release(rv).len(),
        join_release(rv).subrange(0, join_release(rv.subrange(0, k)).len() as int) == join_release(rv.subrange(0, k)),
        k < rv.len() ==> join_release(rv.subrange(0, k)).len() < join_release(rv).len(),
        k < rv.len() ==> join_release(rv)[join_release(rv.subrange(0, k)).len() as int] == '.',
    decreases rv.len(),
{
    let whole = join_release(rv);
    if k == rv.len() {
        assert(rv.subrange(0, k) =~= rv);
        assert(whole.subrange(0, whole.len() as int) =~= whole);
    } else {
        let rp = rv.drop_last();
        let jp = join_release(rp);
        assert(whole == jp + seq!['.'] + digits(rv.last() as nat));
        if k == rv.len() - 1 {
            assert(rv.subrange(0, k) =~= rp);
            assert(whole.subrange(0, jp.len() as int) =~= jp);
            assert(whole[jp.len() as int] == '.');
        } else {
            lemma_join_prefix(rp, k);
            assert(rp.subrange(0, k) =~= rv.subrange(0, k));
            let m = join_release(rv.subrange(0, k)).len() as int;
            assert(whole.subrange(0, m) =~= jp.subrange(0, m));
            assert(whole[m] == jp[m]);
        }
    }
}

/// Where segment `k` of a release target starts and ends, and that
/// reading a number there gives it.
proof fn lemma_segment(c: Seq<char>, rv: Seq<u64>, k: int)
    requires
        release_target(c, rv),
        0 <= k < rv.len(),
    ensures
        ({
            let e = join_release(rv.subrange(0, k + 1)).len() as int;
            let st: int = if k == 0 { 0 } else { join_release(rv.subrange(0, k)).len() as int + 1 };
            &&& 0 <= st < e <= c.len()
            &&& k > 0 ==> c[st - 1] == '.'
            &&& c.subrange(st, e) == digits(rv[k] as nat)
            &&& digit_end(c, st) == e
            &&& canonical_number(c.subrange(st, e))
            &&& value_of(c.subrange(st, e)) == rv[k]
            &&& c.subrange(0, e) == join_release(rv.subrange(0, k + 1))
        }),
{
    let whole = join_release(rv);
    let j = whole.len() as int;
    let d = digits(rv[k] as nat);
    lemma_digits_canonical(rv[k] as nat);
    lemma_join_prefix(rv, k + 1);
    let e = join_release(rv.subrange(0, k + 1)).len() as int;
    let st: int = if k == 0 { 0 } else { join_release(rv.subrange(0, k)).len() as int + 1 };
    assert(c.subrange(0, e) =~= whole.subrange(0, e));
    if k == 0 {
        let a = rv.subrange(0, 1);
        assert(join_release(a) == digits(a[0] as nat));
        assert(c.subrange(0, e) == d);
    } else {
        lemma_join_step(rv, k);
        let p = join_release(rv.subrange(0, k));
        assert(c.subrange(st, e) =~= c.subrange(0, e).subrange(st, e));
        assert(c.subrange(0, e).subrange(st, e) =~= d);
        assert(c[st - 1] == c.subrange(0, e)[st - 1]);
    }
    assert(c.subrange(st, e) == d);
    assert forall|x: int| st <= x < e implies is_digit(#[trigger] c[x]) by {
        assert(c[x] == d[x - st]);
    }
    if k + 1 < rv.len() {
        assert(e < j);
        assert(c.subrange(0, j)[e] == c[e]);
    }
    lemma_digit_end_at(c, st, e);
}

/// Reads dot-separated release segments from the start of `c`.
fn parse_release(c: &Vec<char>, Ghost(rv): Ghost<Seq<u64>>) -> (r: Option<(Vec<u64>, usize)>)
    ensures
        r matches Some((rel, i)) ==> rel@.len() >= 1 && i <= c.len() && join_release(rel@) == c@.subrange(0, i as int),
        c@.len() > 0 && !is_digit(c@[0]) ==> r is None,
        release_target(c@, rv) ==> (r matches Some((rel, i)) && rel@ == rv),
{
    let ghost t = release_target(c@, rv);
    proof {
        if t {
            lemma_segment(c@, rv, 0);
        }
    }
    let (n0, i0) = match read_number(c, 0) {
        None => { return None; },
        Some(p) => p,
    };
    let mut rel: Vec<u64> = vec![n0];
    let mut i: usize = i0;
    proof {
        assert(rel@ =~= seq![n0]);
        if t {
            assert(rel@ =~= rv.subrange(0, 1));
        }
    }
    let mut more = true;
    while more
        invariant
            rel@.len() >= 1,
            i <= c.len(),
            join_release(rel@) == c@.subrange(0, i as int),
            t == release_target(c@, rv),
            t ==> rel@.len() <= rv.len() && rel@ == rv.subrange(0, rel@.len() as int),
            t && !more ==> rel@.len() == rv.len(),
        decreases c.len() - i + if more { 1int } else { 0int },
    {
        let ghost k = rel@.len() as int;
        proof {
            if t && k < rv.len() {
                lemma_segment(c@, rv, k);
                lemma_digits_canonical(rv[k] as nat);
                assert(digits(rv[k] as nat)[0] == c@[i + 1]) by {
                    assert(c@.subrange(i + 1, join_release(rv.subrange(0, k + 1)).len() as int)[0] == c@[i + 1]);
                }
                assert(is_digit(digits(rv[k] as nat)[0]));
            }
            if t && k == rv.len() {
                assert(rv.subrange(0, k) =~= rv);
            }
        }
        if i < c.len() && c[i] == '.' && i + 1 < c.len() && c[i + 1] >= '0' && c[i + 1] <= '9' {
            match read_number(c, i + 1) {
                None => { return None; },
                Some((n, j)) => {
                    let ghost old_rel = rel@;
                    rel.push(n);
                    proof {
                        assert(rel@.drop_last() =~= old_rel);
                        assert(c@.subrange(0, j as int) =~= c@.subrange(0, i as int) + seq!['.'] + c@.subrange(i + 1, j as int));
                        if t {
                            assert(rel@ =~= rv.subrange(0, k + 1));
                        }
                    }
                    i = j;
                },
            }
        } else {
            more = false;
        }
    }
    proof {
        if t {
            assert(rv.subrange(0, rel@.len() as int) =~= rv);
        }
    }
    Some((rel, i))
}

/// The number `n` is written at `c[st..e]`, and no digit follows.
proof fn lemma_number_at(c: Seq<char>, st: int, e: int, n: u64)
    requires
        0 <= st <= e <= c.len(),
        c.subrange(st, e) == digits(n as nat),
        e == c.len() || !is_digit(c[e]),
    ensures
        st < e,
        digit_end(c, st) == e,
        canonical_number(c.subrange(st, e)),
        value_of(c.subrange(st, e)) == n,
{
    lemma_digits_canonical(n as nat);
    let d = digits(n as nat);
    assert forall|x: int| st <= x < e implies is_digit(#[trigger] c[x]) by {
        assert(c[x] == d[x - st]);
    }
    lemma_digit_end_at(c, st, e);
}

/// `c` holds the pre-release text of `pt` at `i`, followed by no digit;
/// where there is none, no pre-release marker starts at `i`.
pub open spec fn pre_target(c: Seq<char>, i: int, pt: Option<(PreKind, u64)>) -> bool {
    let e = i + pre_text(pt).len();
    &&& 0 <= i && e <= c.len()
    &&& c.subrange(i, e) == pre_text(pt)
    &&& (e == c.len() || !is_digit(c[e]))
    &&& (pt is None ==> i == c.len() || (c[i] != 'a' && c[i] != 'b' && c[i] != 'r'))
}

/// `c` holds `w` and the number `t` at `i`, followed by no digit; where
/// there is no number, `w` does not stand at `i`.
pub open spec fn marked_target(c: Seq<char>, i: int, w: Seq<char>, t: Option<u64>) -> bool {
    let e = i + opt_text(w, t).len();
    &&& 0 <= i && e <= c.len()
    &&& c.subrange(i, e) == opt_text(w, t)
    &&& (e == c.len() || !is_digit(c[e]))
    &&& (t is None ==> !(i + w.len() <= c.len() && c.subrange(i, i + w.len()) == w))
}

/// Reads an optional pre-release marker at `i`.
fn parse_pre(c: &Vec<char>, i: usize, Ghost(pt): Ghost<Option<(PreKind, u64)>>) -> (r: Option<(Option<(PreKind, u64)>, usize)>)
    requires
        i <= c.len(),
    ensures
        r matches Some((p, j)) ==> i <= j <= c.len() && c@.subrange(i as int, j as int) == pre_text(p),
        pre_target(c@, i as int, pt) ==> r == Some((pt, (i + pre_text(pt).len()) as usize)),
{
    let ghost t = pre_target(c@, i as int, pt);
    let ghost e = i + pre_text(pt).len();
    proof {
        if t {
            match pt {
                Some((k, n)) => {
                    let w = pre_text(pt);
                    assert(c@[i as int] == c@.subrange(i as int, e)[0]);
                    if k == PreKind::Candidate {
                        assert(w == seq!['r', 'c'] + digits(n as nat));
                        assert(c@.subrange(i + 2, e) =~= w.subrange(2, w.len() as int));
                        assert(w.subrange(2, w.len() as int) =~= digits(n as nat));
                        lemma_number_at(c@, i + 2, e, n);
                        assert(c@.subrange(i as int, i + 2) =~= seq!['r', 'c']);
                    } else {
                        assert(c@.subrange(i + 1, e) =~= w.subrange(1, w.len() as int));
                        assert(w.subrange(1, w.len() as int) =~= digits(n as nat));
                        lemma_number_at(c@, i + 1, e, n);
                    }
                },
                None => {},
            }
        }
    }
    let rc = vec!['r', 'c'];
    assert(rc@ =~= seq!['r', 'c']);
    if i < c.len() && (c[i] == 'a' || c[i] == 'b') {
        let kind = if c[i] == 'a' { PreKind::Alpha } else { PreKind::Beta };
        match read_number(c, i + 1) {
            None => None,
            Some((n, j)) => {
                assert(c@.subrange(i as int, j as int) =~= seq![c@[i as int]] + c@.subrange(i + 1, j as int));
                Some((Some((kind, n)), j))
            },
        }
    } else if occurs_at(c, i, &rc) {
        proof {
            assert(c@.subrange(i as int, i + 2)[0] == c@[i as int]);
        }
        match read_number(c, i + 2) {
            None => None,
            Some((n, j)) => {
                assert(c@.subrange(i as int, j as int) =~= c@.subrange(i as int, i + 2) + c@.subrange(i + 2, j as int));
                Some((Some((PreKind::Candidate, n)), j))
            },
        }
    } else {
        proof {
            if t && pt is Some {
                assert(c@.subrange(i as int, i + 2) == seq!['r', 'c']) by {
                    assert(c@.subrange(i as int, i + 2) =~= c@.subrange(i as int, e).subrange(0, 2));
                }
            }
        }
        assert(c@.subrange(i as int, i as int) =~= Seq::<char>::empty());
        Some((None, i))
    }
}

/// Reads an optional number introduced by the word `w` at `i`.
fn parse_marked(c: &Vec<char>, i: usize, w: &Vec<char>, Ghost(mt): Ghost<Option<u64>>) -> (r: Option<(Option<u64>, usize)>)
    requires
        i <= c.len(),
    ensures
        r matches Some((p, j)) ==> i <= j <= c.len() && c@.subrange(i as int, j as int) == opt_text(w@, p),
        marked_target(c@, i as int, w@, mt) ==> r == Some((mt, (i + opt_text(w@, mt).len()) as usize)),
{
    let ghost t = marked_target(c@, i as int, w@, mt);
    let ghost e = i + opt_text(w@, mt).len();
    proof {
        if t {
            if let Some(n) = mt {
                let x = opt_text(w@, mt);
                assert(c@.subrange(i as int, i + w.len()) =~= x.subrange(0, w.len() as int));
                assert(x.subrange(0, w.len() as int) =~= w@);
                assert(c@.subrange(i + w.len(), e) =~= x.subrange(w.len() as int, x.len() as int));
                assert(x.subrange(w.len() as int, x.len() as int) =~= digits(n as nat));
                lemma_number_at(c@, i + w.len(), e, n);
            }
        }
    }
    if occurs_at(c, i, w) {
        match read_number(c, i + w.len()) {
            None => None,
            Some((n, j)) => {
                assert(c@.subrange(i as int, j as int) =~= c@.subrange(i as int, i + w.len()) + c@.subrange(i + w.len(), j as int));
                Some((Some(n), j))
            },
        }
    } else {
        assert(c@.subrange(i as int, i as int) =~= Seq::<char>::empty());
        Some((None, i))
    }
}

/// The first index at or after `i` that does not hold a letter or digit.
pub open spec fn alnum_end(t: Seq<char>, i: int) -> int
    decreases t.len() - i,
{
    if i < 0 || i >= t.len() || !is_alnum(t[i]) {
        i
    } else {
        alnum_end(t, i + 1)
    }
}

proof fn lemma_alnum_end(t: Seq<char>, i: int)
    requires
        0 <= i <= t.len(),
    ensures
        i <= alnum_end(t, i) <= t.len(),
        alnum_end(t, i) < t.len() ==> !is_alnum(t[alnum_end(t, i)]),
        forall|j: int| i <= j < alnum_end(t, i) ==> is_alnum(#[trigger] t[j]),
    decreases t.len() - i,
{
    if i < t.len() && is_alnum(t[i]) {
        lemma_alnum_end(t, i + 1);
    }
}

fn find_alnum_end(c: &Vec<char>, i: usize) -> (r: usize)
    requires
        i <= c.len(),
    ensures
        r as int == alnum_end(c@, i as int),
        i <= r <= c.len(),
        r < c.len() ==> !is_alnum(c@[r as int]),
        forall|j: int| i <= j < r ==> is_alnum(#[trigger] c@[j]),
{
    proof { lemma_alnum_end(c@, i as int); }
    let mut j: usize = i;
    while j < c.len() && ((c[j] >= 'a' && c[j] <= 'z') || (c[j] >= 'A' && c[j] <= 'Z') || (c[j] >= '0' && c[j] <= '9'))
        invariant
            i <= j <= c.len(),
            alnum_end(c@, i as int) == alnum_end(c@, j as int),
        decreases c.len() - j,
    {
        j += 1;
    }
    j
}

/// `c` holds segment `p` at `j`, followed by `.` or by its end.
pub open spec fn seg_target(c: Seq<char>, j: int, p: LocalPart) -> bool {
    let e = j + part_text(p).len();
    &&& 0 <= j && e <= c.len()
    &&& c.subrange(j, e) == part_text(p)
    &&& part_wf(p)
    &&& (e == c.len() || c[e] == '.')
}

proof fn lemma_alnum_end_at(t: Seq<char>, i: int, e: int)
    requires
        0 <= i <= e <= t.len(),
        forall|j: int| i <= j < e ==> is_alnum(#[trigger] t[j]),
        e == t.len() || !is_alnum(t[e]),
    ensures
        alnum_end(t, i) == e,
    decreases e - i,
{
    if i < e {
        lemma_alnum_end_at(t, i + 1, e);
    }
}

/// Reads one label segment at `j`.
fn parse_segment(c: &Vec<char>, j: usize, Ghost(pt): Ghost<LocalPart>) -> (r: Option<(LocalPart, usize)>)
    requires
        j <= c.len(),
    ensures
        r matches Some((p, e)) ==> j < e <= c.len() && c@.subrange(j as int, e as int) == part_text(p) && part_wf(p)
            && e as int == alnum_end(c@, j as int),
        seg_target(c@, j as int, pt) ==> (r matches Some((p, e)) && e == j + part_text(pt).len()
            && part_key(p) == part_key(pt)),
{
    let ghost t = seg_target(c@, j as int, pt);
    let ghost te = j + part_text(pt).len();
    proof {
        if t {
            let w = part_text(pt);
            match pt {
                LocalPart::Num(n) => { lemma_digits_canonical(n as nat); },
                LocalPart::Alpha(_) => {},
            }
            assert forall|x: int| j <= x < te implies is_alnum(#[trigger] c@[x]) by {
                assert(c@[x] == w[x - j]);
                match pt {
                    LocalPart::Num(n) => { assert(is_digit(w[x - j])); },
                    LocalPart::Alpha(_) => { assert(is_alnum(w[x - j])); },
                }
            }
            lemma_alnum_end_at(c@, j as int, te);
            assert(w.len() > 0);
        }
    }
    let e = find_alnum_end(c, j);
    if e == j {
        return None;
    }
    let mut k: usize = j;
    while k < e && c[k] >= '0' && c[k] <= '9'
        invariant
            j <= k <= e,
            e <= c.len(),
            forall|x: int| j <= x < k ==> is_digit(#[trigger] c@[x]),
        decreases e - k,
    {
        k += 1;
    }
    proof {
        if t && k == e {
            let w = part_text(pt);
            if let LocalPart::Alpha(_) = pt {
                let x = choose|x: int| 0 <= x < w.len() && !is_digit(#[trigger] w[x]);
                assert(c@[j + x] == w[x]);
            } else if let LocalPart::Num(n) = pt {
                assert(c@.subrange(j as int, te) == digits(n as nat));
                lemma_number_at(c@, j as int, te, n);
            }
        }
        if t && k < e {
            if let LocalPart::Num(n) = pt {
                lemma_digits_canonical(n as nat);
                assert(c@[k as int] == part_text(pt)[k - j]);
            }
        }
    }
    if k < e {
        let t = string_of(c, j, e);
        proof {
            let sub = c@.subrange(j as int, e as int);
            assert forall|x: int| 0 <= x < sub.len() implies is_alnum(#[trigger] sub[x]) by {
                assert(sub[x] == c@[j + x]);
            }
            assert(sub[k - j] == c@[k as int]);
            assert(!is_digit(sub[k - j]));
        }
        Some((LocalPart::Alpha(t), e))
    } else {
        match read_number(c, j) {
            Some((n, e2)) => {
                if e2 == e {
                    Some((LocalPart::Num(n), e))
                } else {
                    None
                }
            },
            None => None,
        }
    }
}

proof fn lemma_join_local_push(l: Seq<LocalPart>, p: LocalPart)
    requires
        l.len() >= 1,
    ensures
        join_local(l.push(p)) == join_local(l) + seq!['.'] + part_text(p),
{
    assert(l.push(p).drop_last() =~= l);
}

/// `c` holds the label `l` from `i` to its end.
pub open spec fn local_target(c: Seq<char>, i: int, l: Seq<LocalPart>) -> bool {
    &&& l.len() >= 1
    &&& 0 <= i <= c.len()
    &&& c.subrange(i, c.len() as int) == local_text(l)
    &&& forall|x: int| 0 <= x < l.len() ==> part_wf(#[trigger] l[x])
}

proof fn lemma_join_local_prefix(l: Seq<LocalPart>, k: int)
    requires
        1 <= k <= l.len(),
    ensures
        join_local(l.subrange(0, k)).len() <= join_local(l).len(),
        join_local(l).subrange(0, join_local(l.subrange(0, k)).len() as int) == join_local(l.subrange(0, k)),
        k < l.len() ==> join_local(l.subrange(0, k)).len() < join_local(l).len(),
        k < l.len() ==> join_local(l)[join_local(l.subrange(0, k)).len() as int] == '.',
    decreases l.len(),
{
    let whole = join_local(l);
    if k == l.len() {
        assert(l.subrange(0, k) =~= l);
        assert(whole.subrange(0, whole.len() as int) =~= whole);
    } else {
        let lp = l.drop_last();
        let jp = join_local(lp);
        assert(whole == jp + seq!['.'] + part_text(l.last()));
        if k == l.len() - 1 {
            assert(l.subrange(0, k) =~= lp);
            assert(whole.subrange(0, jp.len() as int) =~= jp);
        } else {
            lemma_join_local_prefix(lp, k);
            assert(lp.subrange(0, k) =~= l.subrange(0, k));
            let m = join_local(l.subrange(0, k)).len() as int;
            assert(whole.subrange(0, m) =~= jp.subrange(0, m));
            assert(whole[m] == jp[m]);
        }
    }
}

/// Segment `k` of a label target stands where the parser looks for it.
proof fn lemma_local_segment(c: Seq<char>, i: int, l: Seq<LocalPart>, k: int)
    requires
        local_target(c, i, l),
        0 <= k < l.len(),
    ensures
        ({
            let st: int = if k == 0 { i + 1 } else { i + 1 + join_local(l.subrange(0, k)).len() as int + 1 };
            &&& seg_target(c, st, l[k])
            &&& k > 0 ==> c[st - 1] == '.'
            &&& st + part_text(l[k]).len() == i + 1 + join_local(l.subrange(0, k + 1)).len()
        }),
{
    let whole = join_local(l);
    let u = c.subrange(i, c.len() as int);
    assert(u == seq!['+'] + whole);
    lemma_join_local_prefix(l, k + 1);
    let e = join_local(l.subrange(0, k + 1)).len() as int;
    let st: int = if k == 0 { i + 1 } else { i + 1 + join_local(l.subrange(0, k)).len() as int + 1 };
    let w = part_text(l[k]);
    assert(forall|x: int| 0 <= x < whole.len() ==> c[i + 1 + x] == #[trigger] whole[x]) by {
        assert forall|x: int| 0 <= x < whole.len() implies c[i + 1 + x] == #[trigger] whole[x] by {
            assert(u[x + 1] == whole[x]);
        }
    }
    if k == 0 {
        let a = l.subrange(0, 1);
        assert(join_local(a) == part_text(a[0]));
        assert(c.subrange(st, st + w.len()) =~= whole.subrange(0, e));
    } else {
        let a = l.subrange(0, k + 1);
        assert(a.drop_last() =~= l.subrange(0, k));
        assert(join_local(a) == join_local(l.subrange(0, k)) + seq!['.'] + w);
        let p = join_local(l.subrange(0, k)).len() as int;
        assert(whole.subrange(0, e)[p] == '.');
        assert(c[st - 1] == whole[p]);
        assert(c.subrange(st, st + w.len()) =~= whole.subrange(0, e).subrange(p + 1, e));
        assert(whole.subrange(0, e).subrange(p + 1, e) =~= w);
    }
    if k + 1 < l.len() {
        assert(c[i + 1 + e] == whole[e]);
    } else {
        assert(whole.subrange(0, e) =~= whole);
    }
}

/// Reads an optional local label (`+` and segments) at `i`.
fn parse_local(c: &Vec<char>, i: usize, Ghost(lt): Ghost<Seq<LocalPart>>) -> (r: Option<(Vec<LocalPart>, usize)>)
    requires
        i <= c.len(),
    ensures
        local_target(c@, i as int, lt) ==> (r matches Some((l, j)) && j == c.len() && local_eq(l@, lt)),
        r matches Some((l, j)) ==> i <= j <= c.len() && c@.subrange(i as int, j as int) == local_text(l@)
            && forall|x: int| 0 <= x < l@.len() ==> part_wf(#[trigger] l@[x]),
        i == c.len() ==> (r matches Some((l, j)) && l@.len() == 0 && j == i),
{
    let ghost t = local_target(c@, i as int, lt);
    proof {
        if t {
            assert(local_text(lt)[0] == '+');
            assert(local_text(lt).len() > 0);
            assert(i < c.len());
            assert(c@.subrange(i as int, c.len() as int)[0] == c@[i as int]);
        }
    }
    if i >= c.len() || c[i] != '+' {
        assert(c@.subrange(i as int, i as int) =~= Seq::<char>::empty());
        return Some((Vec::new(), i));
    }
    proof {
        if t {
            lemma_local_segment(c@, i as int, lt, 0);
        }
    }
    let (p0, e0) = match parse_segment(c, i + 1, Ghost(if lt.len() > 0 { lt[0] } else { LocalPart::Num(0) })) {
        None => { return None; },
        Some(p) => p,
    };
    let mut l: Vec<LocalPart> = vec![p0];
    let mut j: usize = e0;
    proof {
        assert(l@ =~= seq![p0]);
        assert(c@.subrange(i as int, j as int) =~= seq!['+'] + c@.subrange(i + 1, j as int));
    }
    let mut more = true;
    while more
        invariant
            i < j <= c.len(),
            l@.len() >= 1,
            c@.subrange(i as int, j as int) == seq!['+'] + join_local(l@),
            forall|x: int| 0 <= x < l@.len() ==> part_wf(#[trigger] l@[x]),
            t == local_target(c@, i as int, lt),
            t ==> l@.len() <= lt.len() && j == i + 1 + join_local(lt.subrange(0, l@.len() as int)).len(),
            t ==> forall|x: int| 0 <= x < l@.len() ==> part_key(#[trigger] l@[x]) == part_key(lt[x]),
            t && !more ==> l@.len() == lt.len(),
        decreases c.len() - j + if more { 1int } else { 0int },
    {
        let ghost k = l@.len() as int;
        proof {
            if t && k < lt.len() {
                lemma_local_segment(c@, i as int, lt, k);
            }
            if t && k == lt.len() {
                assert(lt.subrange(0, k) =~= lt);
                assert(c@.subrange(i as int, c.len() as int).len() == local_text(lt).len());
            }
        }
        if j < c.len() && c[j] == '.' {
            match parse_segment(c, j + 1, Ghost(if k < lt.len() { lt[k] } else { LocalPart::Num(0) })) {
                None => { return None; },
                Some((p, e)) => {
                    let ghost old_l = l@;
                    l.push(p);
                    proof {
                        lemma_join_local_push(old_l, p);
                        assert(l@ == old_l.push(p));
                        assert(c@.subrange(i as int, e as int) =~= c@.subrange(i as int, j as int) + seq!['.'] + c@.subrange(j + 1, e as int));
                    }
                    j = e;
                },
            }
        } else {
            more = false;
        }
    }
    proof {
        if t {
            assert(lt.subrange(0, lt.len() as int) =~= lt);
            assert(c@.subrange(i as int, c.len() as int).len() == c.len() - i);
        }
    }
    Some((l, j))
}

fn compare_part(a: &LocalPart, b: &LocalPart) -> (r: i8)
    ensures
        r as int == part_cmp(*a, *b),
{
    match (a, b) {
        (LocalPart::Num(m), LocalPart::Num(n)) => if *m < *n { -1 } else if *m > *n { 1 } else { 0 },
        (LocalPart::Num(_), LocalPart::Alpha(_)) => 1,
        (LocalPart::Alpha(_), LocalPart::Num(_)) => -1,
        (LocalPart::Alpha(s), LocalPart::Alpha(t)) => {
            compare_chars(&chars_of(s.as_str()), &chars_of(t.as_str()))
        },
    }
}

fn compare_local(a: &Vec<LocalPart>, b: &Vec<LocalPart>) -> (r: i8)
    ensures
        r as int == local_cmp(a@, b@),
{
    let mut i: usize = 0;
    assert(a@.subrange(0, a.len() as int) =~= a@);
    assert(b@.subrange(0, b.len() as int) =~= b@);
    while i < a.len() && i < b.len()
        invariant
            i <= a.len(),
            i <= b.len(),
            local_cmp(a@, b@) == local_cmp(a@.subrange(i as int, a.len() as int), b@.subrange(i as int, b.len() as int)),
        decreases a.len() - i,
    {
        let ghost sa = a@.subrange(i as int, a.len() as int);
        let ghost sb = b@.subrange(i as int, b.len() as int);
        assert(sa[0] == a@[i as int] && sb[0] == b@[i as int]);
        let c = compare_part(&a[i], &b[i]);
        if c != 0 {
            return c;
        }
        assert(sa.drop_first() =~= a@.subrange(i + 1, a.len() as int));
        assert(sb.drop_first() =~= b@.subrange(i + 1, b.len() as int));
        i += 1;
    }
    let ghost sa = a@.subrange(i as int, a.len() as int);
    let ghost sb = b@.subrange(i as int, b.len() as int);
    if i < a.len() {
        assert(sa.len() > 0 && sb.len() == 0);
        1
    } else if i < b.len() {
        assert(sa.len() == 0 && sb.len() > 0);
        -1
    } else {
        assert(sa.len() == 0 && sb.len() == 0);
        0
    }
}

fn append_part(r: &mut String, p: &LocalPart)
    ensures
        final(r)@ == old(r)@ + part_text(*p),
{
    match p {
        LocalPart::Num(n) => {
            let d = decimal(*n);
            r.append(d.as_str());
        },
        LocalPart::Alpha(t) => {
            r.append(t.as_str());
        },
    }
}

/// Appends the text of a local label.
fn append_local(r: &mut String, l: &Vec<LocalPart>)
    ensures
        final(r)@ == old(r)@ + local_text(l@),
{
    if l.len() == 0 {
        assert(old(r)@ + local_text(l@) =~= old(r)@);
        return;
    }
    let ghost start = r@;
    r.append("+");
    proof { reveal_strlit("+"); }
    let mut i: usize = 0;
    while i < l.len()
        invariant
            i <= l@.len(),
            l@.len() >= 1,
            r@ == start + seq!['+'] + join_local(l@.subrange(0, i as int)),
        decreases l@.len() - i,
    {
        let ghost before = l@.subrange(0, i as int);
        if i > 0 {
            r.append(".");
            proof { reveal_strlit("."); }
        }
        append_part(r, &l[i]);
        proof {
            let now = l@.subrange(0, i + 1);
            assert(now.drop_last() =~= before);
            assert(now.last() == l@[i as int]);
            if i == 0 {
                assert(before.len() == 0);
                assert(join_local(now) == part_text(l@[0]));
            }
            assert(r@ =~= start + seq!['+'] + join_local(now));
        }
        i += 1;
    }
    assert(l@.subrange(0, l@.len() as int) =~= l@);
    assert(r@ =~= start + local_text(l@));
}

/// Appends release segments joined by `.`.
fn append_release(r: &mut String, release: &Vec<u64>)
    ensures
        final(r)@ == old(r)@ + join_release(release@),
{
    let ghost start = r@;
    let mut i: usize = 0;
    while i < release.len()
        invariant
            i <= release.len(),
            r@ == start + join_release(release@.subrange(0, i as int)),
        decreases release.len() - i,
    {
        let ghost before = release@.subrange(0, i as int);
        if i > 0 {
            r.append(".");
            proof { reveal_strlit("."); }
        }
        let d = decimal(release[i]);
        r.append(d.as_str());
        proof {
            let now = release@.subrange(0, i + 1);
            assert(now.drop_last() =~= before);
            if i == 0 {
                assert(before.len() == 0);
            }
            assert(r@ =~= start + join_release(now));
        }
        i += 1;
    }
    assert(release@.subrange(0, release.len() as int) =~= release@);
}

/// A constraint operator.
#[derive(PartialEq, Eq, Structural, Clone, Copy, Debug)]
pub enum Operator {
    Eq,
    Ne,
    Lt,
    Le,
    Gt,
    Ge,
    Compatible,
    Arbitrary,
}

/// The first `k` release segments of `a` equal those of `b`, zero-padded.
pub open spec fn same_prefix(a: Seq<int>, b: Seq<int>, k: int) -> bool {
    forall|j: int| 0 <= j < k ==> seg(a, j) == seg(b, j)
}

/// Whether `v` meets the constraint `op bound`.
pub open spec fn spec_satisfies(v: VersionSpec, op: Operator, bound: VersionSpec) -> bool {
    let c = v.spec_compare(&bound);
    match op {
        Operator::Eq => c == Some(0int),
        Operator::Ne => c != Some(0int),
        Operator::Lt => c == Some(-1int),
        Operator::Le => c == Some(-1int) || c == Some(0int),
        Operator::Gt => c == Some(1int),
        Operator::Ge => c == Some(1int) || c == Some(0int),
        Operator::Compatible => (c == Some(1int) || c == Some(0int)) && v is Release && bound is Release
            && same_prefix(v.release_key(), bound.release_key(), bound.release_key().len() - 1),
        Operator::Arbitrary => v.text() == bound.text(),
    }
}

proof fn lemma_compare_range(a: VersionSpec, b: VersionSpec)
    ensures
        a.spec_compare(&b) matches Some(x) ==> x == -1 || x == 0 || x == 1,
{
    lemma_lex_order(a.release_key(), b.release_key(), b.release_key());
    lemma_lex_order(a.suffix_key(), b.suffix_key(), b.suffix_key());
    if a is Release && b is Release {
        lemma_local_cmp(a->Release_local@, b->Release_local@, b->Release_local@);
    }
}

impl VersionSpec {
    /// Compares two versions; `None` where they have no order.
    pub fn compare(&self, other: &VersionSpec) -> (r: Option<Ordering>)
        ensures
            r == ordering_of(self.spec_compare(other)),
    {
        match (self, other) {
            (VersionSpec::Release { release: ra, pre: pa, post: qa, dev: da, local: la },
             VersionSpec::Release { release: rb, pre: pb, post: qb, dev: db, local: lb }) => {
                let c = lex_keys(&release_keys(ra), &release_keys(rb));
                let c = if c != 0 { c } else { lex_keys(&suffix_keys(*pa, *qa, *da), &suffix_keys(*pb, *qb, *db)) };
                let c = if c != 0 { c } else { compare_local(la, lb) };
                proof {
                    lemma_lex_order(self.release_key(), other.release_key(), other.release_key());
                    lemma_lex_order(self.suffix_key(), other.suffix_key(), other.suffix_key());
                    lemma_local_cmp(la@, lb@, lb@);
                }
                Some(if c < 0 { Ordering::Less } else if c > 0 { Ordering::Greater } else { Ordering::Equal })
            },
            (VersionSpec::Raw { text: a }, VersionSpec::Raw { text: b }) => {
                if *a == *b { Some(Ordering::Equal) } else { None }
            },
            _ => None,
        }
    }

    /// The canonical text of the version.
    pub fn to_string(&self) -> (r: String)
        ensures
            r@ == self.text(),
    {
        match self {
            VersionSpec::Raw { text } => text.clone(),
            VersionSpec::Release { release, pre, post, dev, local } => {
                let mut r = String::new();
                append_release(&mut r, release);
                assert(r@ =~= join_release(release@));
                match pre {
                    None => {},
                    Some((kind, n)) => {
                        match kind {
                            PreKind::Alpha => { r.append("a"); proof { reveal_strlit("a"); } },
                            PreKind::Beta => { r.append("b"); proof { reveal_strlit("b"); } },
                            PreKind::Candidate => { r.append("rc"); proof { reveal_strlit("rc"); } },
                        }
                        let d = decimal(*n);
                        r.append(d.as_str());
                    },
                }
                match post {
                    None => {},
                    Some(n) => {
                        r.append(".post");
                        proof { reveal_strlit(".post"); }
                        let d = decimal(*n);
                        r.append(d.as_str());
                    },
                }
                match dev {
                    None => {},
                    Some(n) => {
                        r.append(".dev");
                        proof { reveal_strlit(".dev"); }
                        let d = decimal(*n);
                        r.append(d.as_str());
                    },
                }
                let ghost before_local = r@;
                append_local(&mut r, local);
                assert(r@ =~= self.text());
                r
            },
        }
    }

    /// Whether this version meets the constraint `op bound`.
    pub fn satisfies(&self, op: Operator, bound: &VersionSpec) -> (r: bool)
        ensures
            r == spec_satisfies(*self, op, *bound),
    {
        let c: i8 = match self.compare(bound) {
            Some(Ordering::Less) => -1,
            Some(Ordering::Equal) => 0,
            Some(Ordering::Greater) => 1,
            None => 2,
        };
        proof {
            lemma_compare_range(*self, *bound);
        }
        match op {
            Operator::Eq => c == 0,
            Operator::Ne => c != 0,
            Operator::Lt => c == -1,
            Operator::Le => c == -1 || c == 0,
            Operator::Gt => c == 1,
            Operator::Ge => c == 1 || c == 0,
            Operator::Compatible => {
                if !(c == 1 || c == 0) {
                    return false;
                }
                match (self, bound) {
                    (VersionSpec::Release { release: a, .. }, VersionSpec::Release { release: b, .. }) => {
                        let ghost ka = self.release_key();
                        let ghost kb = bound.release_key();
                        let k: usize = if b.len() == 0 { 0 } else { b.len() - 1 };
                        let mut j: usize = 0;
                        while j < k
                            invariant
                                k <= b.len(),
                                k as int == kb.len() - 1 || (k == 0 && kb.len() == 0),
                                ka == a@.map_values(|x: u64| x as int),
                                kb == b@.map_values(|x: u64| x as int),
                                ka == self.release_key(),
                                kb == bound.release_key(),
                                op == Operator::Compatible,
                                j <= k,
                                same_prefix(ka, kb, j as int),
                            decreases k - j,
                        {
                            let x: u64 = if j < a.len() { a[j] } else { 0 };
                            assert(x as int == seg(ka, j as int));
                            assert(b[j as int] as int == seg(kb, j as int));
                            if x != b[j] {
                                assert(kb.len() == b.len());
                                assert(!same_prefix(ka, kb, kb.len() - 1)) by {
                                    assert(0 <= j < kb.len() - 1 && seg(ka, j as int) != seg(kb, j as int));
                                }
                                return false;
                            }
                            j += 1;
                        }
                        true
                    },
                    _ => false,
                }
            },
            Operator::Arbitrary => {
                let a = self.to_string();
                let b = bound.to_string();
                a == b
            },
        }
    }
}

} // verus!
