//! Conversions between strings and character vectors.
use vstd::prelude::*;

verus! {

/// Relies on `String::push`: appends one character.
#[verifier::external_body]
pub(crate) fn push_char(s: &mut String, c: char)
    ensures
        final(s)@ == old(s)@.push(c),
{
    s.push(c)
}

/// Relies on `u64::to_string`: the decimal digits of the number, with no
/// leading zeros.
#[verifier::external_body]
pub(crate) fn decimal(n: u64) -> (r: String)
    ensures
        r@ == digits(n as nat),
{
    n.to_string()
}

/// The character of a decimal digit.
pub open spec fn digit_char(d: nat) -> char {
    if d == 0 { '0' } else if d == 1 { '1' } else if d == 2 { '2' } else if d == 3 { '3' }
    else if d == 4 { '4' } else if d == 5 { '5' } else if d == 6 { '6' } else if d == 7 { '7' }
    else if d == 8 { '8' } else { '9' }
}

/// The decimal representation of `n`, without leading zeros.
pub open spec fn digits(n: nat) -> Seq<char>
    decreases n,
{
    if n < 10 {
        seq![digit_char(n)]
    } else {
        digits(n / 10).push(digit_char(n % 10))
    }
}

pub open spec fn is_digit(c: char) -> bool {
    '0' <= c && c <= '9'
}

pub open spec fn digit_value(c: char) -> nat {
    (c as u32 - '0' as u32) as nat
}

/// The characters of `s`, in order.
pub fn chars_of(s: &str) -> (r: Vec<char>)
    ensures
        r@ == s@,
{
    let n = s.unicode_len();
    let mut r: Vec<char> = Vec::new();
    let mut i: usize = 0;
    while i < n
        invariant
            n == s@.len(),
            i <= n,
            r@ == s@.subrange(0, i as int),
        decreases n - i,
    {
        r.push(s.get_char(i));
        i += 1;
    }
    assert(r@ =~= s@);
    r
}

/// A string holding the characters `v[from..to]`.
pub fn string_of(v: &Vec<char>, from: usize, to: usize) -> (r: String)
    requires
        from <= to <= v.len(),
    ensures
        r@ == v@.subrange(from as int, to as int),
{
    let mut r = String::new();
    let mut i: usize = from;
    while i < to
        invariant
            from <= i <= to <= v.len(),
            r@ == v@.subrange(from as int, i as int),
        decreases to - i,
    {
        push_char(&mut r, v[i]);
        assert(v@.subrange(from as int, i + 1) =~= v@.subrange(from as int, i as int).push(v@[i as int]));
        i += 1;
    }
    r
}

/// Whether `w` occurs in `c` at position `i`.
pub fn occurs_at(c: &Vec<char>, i: usize, w: &Vec<char>) -> (r: bool)
    ensures
        r == (i + w.len() <= c.len() && c@.subrange(i as int, i + w.len()) == w@),
{
    if i > c.len() || w.len() > c.len() - i {
        return false;
    }
    let mut j: usize = 0;
    while j < w.len()
        invariant
            i + w.len() <= c.len(),
            j <= w.len(),
            forall|k: int| 0 <= k < j ==> c@[i + k] == w@[k],
        decreases w.len() - j,
    {
        if c[i + j] != w[j] {
            assert(c@.subrange(i as int, i + w.len())[j as int] != w@[j as int]);
            return false;
        }
        j += 1;
    }
    assert(c@.subrange(i as int, i + w.len()) =~= w@);
    true
}

/// The value of a run of decimal digits.
pub open spec fn value_of(s: Seq<char>) -> nat
    decreases s.len(),
{
    if s.len() == 0 {
        0
    } else {
        value_of(s.drop_last()) * 10 + digit_value(s.last())
    }
}

pub open spec fn all_digits(s: Seq<char>) -> bool {
    forall|j: int| 0 <= j < s.len() ==> is_digit(#[trigger] s[j])
}

/// A non-empty run of digits without a leading zero (a lone `0` is fine).
pub open spec fn canonical_number(s: Seq<char>) -> bool {
    s.len() >= 1 && all_digits(s) && (s.len() == 1 || s[0] != '0')
}

proof fn lemma_digit_round_trip(c: char)
    requires
        is_digit(c),
    ensures
        digit_value(c) < 10,
        digit_char(digit_value(c)) == c,
{
    let u = c as u32;
    assert(48 <= u <= 57);
    assert(u == 48 || u == 49 || u == 50 || u == 51 || u == 52 || u == 53 || u == 54 || u == 55 || u == 56 || u == 57);
}

proof fn lemma_value_positive(s: Seq<char>)
    requires
        s.len() >= 1,
        all_digits(s),
        s[0] != '0',
    ensures
        value_of(s) >= 1,
    decreases s.len(),
{
    if s.len() == 1 {
        lemma_digit_round_trip(s[0]);
        assert(s.drop_last().len() == 0);
        if digit_value(s[0]) == 0 {
            assert(digit_char(0) == '0');
        }
    } else {
        let t = s.drop_last();
        assert(t[0] == s[0]);
        assert(all_digits(t)) by {
            assert forall|j: int| 0 <= j < t.len() implies is_digit(#[trigger] t[j]) by {
                assert(t[j] == s[j]);
            }
        }
        lemma_value_positive(t);
    }
}

/// The digits of a canonical number read back as the same text.
pub proof fn lemma_value_digits(s: Seq<char>)
    requires
        canonical_number(s),
    ensures
        digits(value_of(s)) == s,
    decreases s.len(),
{
    let t = s.drop_last();
    let d = digit_value(s.last());
    assert(is_digit(s[s.len() - 1]));
    lemma_digit_round_trip(s.last());
    if s.len() == 1 {
        assert(t.len() == 0);
        assert(value_of(s) == d);
        assert(digits(d) =~= s);
    } else {
        assert(t[0] == s[0]);
        assert(all_digits(t)) by {
            assert forall|j: int| 0 <= j < t.len() implies is_digit(#[trigger] t[j]) by {
                assert(t[j] == s[j]);
            }
        }
        lemma_value_positive(t);
        lemma_value_digits(t);
        let v = value_of(s);
        let w = value_of(t);
        assert(v == w * 10 + d);
        assert(v / 10 == w && v % 10 == d) by (nonlinear_arith)
            requires v == w * 10 + d, d < 10;
        assert(v >= 10);
        assert(digits(v) == digits(w).push(digit_char(d)));
        assert(s =~= t.push(s.last()));
    }
}

/// The first index at or after `i` that does not hold a digit.
pub open spec fn digit_end(t: Seq<char>, i: int) -> int
    decreases t.len() - i,
{
    if i < 0 || i >= t.len() || !is_digit(t[i]) {
        i
    } else {
        digit_end(t, i + 1)
    }
}

pub proof fn lemma_digit_end(t: Seq<char>, i: int)
    requires
        0 <= i <= t.len(),
    ensures
        i <= digit_end(t, i) <= t.len(),
        digit_end(t, i) < t.len() ==> !is_digit(t[digit_end(t, i)]),
        forall|j: int| i <= j < digit_end(t, i) ==> is_digit(#[trigger] t[j]),
    decreases t.len() - i,
{
    if i < t.len() && is_digit(t[i]) {
        lemma_digit_end(t, i + 1);
    }
}

/// A run of digits that ends at `e` ends there.
pub proof fn lemma_digit_end_at(t: Seq<char>, i: int, e: int)
    requires
        0 <= i <= e <= t.len(),
        forall|j: int| i <= j < e ==> is_digit(#[trigger] t[j]),
        e == t.len() || !is_digit(t[e]),
    ensures
        digit_end(t, i) == e,
    decreases e - i,
{
    if i < e {
        lemma_digit_end_at(t, i + 1, e);
    }
}

/// The value of a run of digits is at least that of any prefix of it.
proof fn lemma_value_prefix(s: Seq<char>, k: int)
    requires
        0 <= k <= s.len(),
    ensures
        value_of(s.subrange(0, k)) <= value_of(s),
    decreases s.len(),
{
    if k < s.len() {
        let t = s.drop_last();
        lemma_value_prefix(t, k);
        assert(t.subrange(0, k) =~= s.subrange(0, k));
    } else {
        assert(s.subrange(0, k) =~= s);
    }
}

/// The decimal text of a number is a canonical number of that value.
pub proof fn lemma_digits_canonical(n: nat)
    ensures
        canonical_number(digits(n)),
        value_of(digits(n)) == n,
        n >= 1 ==> digits(n)[0] != '0',
    decreases n,
{
    if n < 10 {
        let c = digit_char(n);
        assert(is_digit(c));
        assert(digit_value(c) == n);
        assert(digits(n).drop_last().len() == 0);
        assert(digits(n).last() == c);
        assert(value_of(digits(n)) == value_of(digits(n).drop_last()) * 10 + digit_value(c));
    } else {
        let m = n / 10;
        let d = n % 10;
        lemma_digits_canonical(m);
        let s = digits(n);
        assert(s == digits(m).push(digit_char(d)));
        assert(is_digit(digit_char(d)));
        assert(digit_value(digit_char(d)) == d);
        assert(s.drop_last() =~= digits(m));
        assert(n == m * 10 + d);
        assert(s.last() == digit_char(d));
        assert(value_of(s) == value_of(digits(m)) * 10 + d);
        assert(s[0] == digits(m)[0]);
        assert(all_digits(s)) by {
            assert forall|j: int| 0 <= j < s.len() implies is_digit(#[trigger] s[j]) by {
                if j < s.len() - 1 {
                    assert(s[j] == digits(m)[j]);
                }
            }
        }
    }
}

/// Reads the run of digits that starts at `start`, if it is a canonical
/// number that fits in a `u64`; returns its value and where it ends.
pub fn read_number(c: &Vec<char>, start: usize) -> (r: Option<(u64, usize)>)
    ensures
        ({
            let e = digit_end(c@, start as int);
            let run = c@.subrange(start as int, e);
            start < c.len() && e > start && canonical_number(run) && value_of(run) <= u64::MAX
                ==> r == Some((value_of(run) as u64, e as usize))
        }),
        r matches Some((n, e)) ==> {
            &&& start < e <= c.len()
            &&& canonical_number(c@.subrange(start as int, e as int))
            &&& n as nat == value_of(c@.subrange(start as int, e as int))
            &&& digits(n as nat) == c@.subrange(start as int, e as int)
            &&& (e == c.len() || !is_digit(c@[e as int]))
        },
        start < c.len() && !is_digit(c@[start as int]) ==> r is None,
{
    if start >= c.len() {
        return None;
    }
    let mut acc: u64 = 0;
    let mut i: usize = start;
    proof { lemma_digit_end(c@, start as int); }
    while i < c.len() && c[i] >= '0' && c[i] <= '9'
        invariant
            start <= i <= c.len(),
            digit_end(c@, start as int) == digit_end(c@, i as int),
            i <= digit_end(c@, start as int) <= c.len(),
            all_digits(c@.subrange(start as int, i as int)),
            acc as nat == value_of(c@.subrange(start as int, i as int)),
        decreases c.len() - i,
    {
        let d: u64 = (c[i] as u32 - '0' as u32) as u64;
        assert(d < 10) by { lemma_digit_round_trip(c@[i as int]); }
        if acc > (u64::MAX - d) / 10 {
            proof {
                let e = digit_end(c@, start as int);
                let run = c@.subrange(start as int, e);
                let pre = c@.subrange(start as int, i + 1);
                assert(pre.drop_last() =~= c@.subrange(start as int, i as int));
                assert(pre.last() == c@[i as int]);
                assert(value_of(pre) == acc * 10 + d);
                assert(acc * 10 + d > u64::MAX) by (nonlinear_arith)
                    requires acc > (u64::MAX - d) / 10, d < 10;
                lemma_digit_end(c@, i as int);
                assert(run.subrange(0, i + 1 - start) =~= pre);
                lemma_value_prefix(run, i + 1 - start);
            }
            return None;
        }
        assert(acc * 10 + d <= u64::MAX) by (nonlinear_arith)
            requires acc <= (u64::MAX - d) / 10, d < 10;
        let ghost old_sub = c@.subrange(start as int, i as int);
        acc = acc * 10 + d;
        i += 1;
        proof { lemma_digit_end(c@, i as int); }
        proof {
            let sub = c@.subrange(start as int, i as int);
            assert(sub.drop_last() =~= old_sub);
            assert(sub.last() == c@[i - 1]);
            assert(all_digits(sub)) by {
                assert forall|j: int| 0 <= j < sub.len() implies is_digit(#[trigger] sub[j]) by {
                    if j < sub.len() - 1 {
                        assert(sub[j] == old_sub[j]);
                    }
                }
            }
        }
    }
    if i == start || (i - start > 1 && c[start] == '0') {
        proof {
            let run = c@.subrange(start as int, i as int);
            if i > start {
                assert(run[0] == c@[start as int]);
            }
        }
        return None;
    }
    proof {
        let sub = c@.subrange(start as int, i as int);
        assert(sub[0] == c@[start as int]);
        lemma_value_digits(sub);
    }
    Some((acc, i))
}

/// The first index at or after `i` that holds `ch`, or the length of `t`.
pub open spec fn find_from(t: Seq<char>, ch: char, i: int) -> int
    decreases t.len() - i,
{
    if i >= t.len() {
        if i >= 0 { i } else { t.len() as int }
    } else if t[i] == ch {
        i
    } else {
        find_from(t, ch, i + 1)
    }
}

pub proof fn lemma_find_from_range(t: Seq<char>, ch: char, i: int)
    requires
        0 <= i <= t.len(),
    ensures
        i <= find_from(t, ch, i) <= t.len(),
        find_from(t, ch, i) < t.len() ==> t[find_from(t, ch, i)] == ch,
    decreases t.len() - i,
{
    if i < t.len() && t[i] != ch {
        lemma_find_from_range(t, ch, i + 1);
    }
}

/// Where `ch` next occurs in `c` at or after `i`, or the length of `c`.
pub fn find_char(c: &Vec<char>, ch: char, i: usize) -> (r: usize)
    requires
        i <= c.len(),
    ensures
        r as int == find_from(c@, ch, i as int),
        i <= r <= c.len(),
{
    proof { lemma_find_from_range(c@, ch, i as int); }
    let mut j: usize = i;
    while j < c.len() && c[j] != ch
        invariant
            i <= j <= c.len(),
            find_from(c@, ch, i as int) == find_from(c@, ch, j as int),
        decreases c.len() - j,
    {
        j += 1;
    }
    j
}

/// The characters `c[from..to]` as a vector.
pub fn sub_vec(c: &Vec<char>, from: usize, to: usize) -> (r: Vec<char>)
    requires
        from <= to <= c.len(),
    ensures
        r@ == c@.subrange(from as int, to as int),
{
    let mut r: Vec<char> = Vec::new();
    let mut i: usize = from;
    while i < to
        invariant
            from <= i <= to <= c.len(),
            r@ == c@.subrange(from as int, i as int),
        decreases to - i,
    {
        r.push(c[i]);
        assert(c@.subrange(from as int, i + 1) =~= c@.subrange(from as int, i as int).push(c@[i as int]));
        i += 1;
    }
    r
}

} // verus!
