//! Package-name normalization: lower case, with every run of `-`, `_` and
//! `.` collapsed into one `-`.
use vstd::prelude::*;
use crate::text::chars_of;
use crate::text::push_char;

verus! {

/// The ASCII lower-case form of `c`.
pub open spec fn ascii_lower(c: char) -> char {
    if 'A' <= c && c <= 'Z' { ((c as u32) + 32) as char } else { c }
}

/// Relies on `char::to_ascii_lowercase`: maps `A`..`Z` to `a`..`z` and
/// leaves every other character as it is.
#[verifier::external_body]
fn to_ascii_lower(c: char) -> (r: char)
    ensures
        r == ascii_lower(c),
{
    c.to_ascii_lowercase()
}

pub open spec fn is_sep(c: char) -> bool {
    c == '-' || c == '_' || c == '.'
}

/// The normalized form of a name.
pub open spec fn normalized(s: Seq<char>) -> Seq<char>
    decreases s.len(),
{
    if s.len() == 0 {
        Seq::empty()
    } else if is_sep(s.last()) {
        if s.len() > 1 && is_sep(s[s.len() - 2]) {
            normalized(s.drop_last())
        } else {
            normalized(s.drop_last()).push('-')
        }
    } else {
        normalized(s.drop_last()).push(ascii_lower(s.last()))
    }
}

/// A name already in normal form.
pub open spec fn is_normal(t: Seq<char>) -> bool {
    forall|i: int| 0 <= i < t.len() ==> {
        &&& !('A' <= #[trigger] t[i] && t[i] <= 'Z')
        &&& (is_sep(t[i]) ==> t[i] == '-')
        &&& (i > 0 && is_sep(t[i]) ==> !is_sep(t[i - 1]))
    }
}

/// Two characters that normalization does not tell apart.
pub open spec fn same_for_names(a: char, b: char) -> bool {
    (is_sep(a) && is_sep(b)) || (!is_sep(a) && !is_sep(b) && ascii_lower(a) == ascii_lower(b))
}

proof fn lemma_normalized_last(s: Seq<char>)
    requires
        s.len() > 0,
    ensures
        normalized(s).len() > 0,
        is_sep(s.last()) ==> normalized(s).last() == '-',
        !is_sep(s.last()) ==> normalized(s).last() == ascii_lower(s.last()) && !is_sep(normalized(s).last()),
    decreases s.len(),
{
    if is_sep(s.last()) && s.len() > 1 && is_sep(s[s.len() - 2]) {
        let t = s.drop_last();
        assert(t.last() == s[s.len() - 2]);
        lemma_normalized_last(t);
    }
}

proof fn lemma_normalized_is_normal(s: Seq<char>)
    ensures
        is_normal(normalized(s)),
    decreases s.len(),
{
    if s.len() > 0 {
        let t = s.drop_last();
        lemma_normalized_is_normal(t);
        let p = normalized(t);
        let r = normalized(s);
        if r.len() > p.len() {
            assert(r == p.push(r.last()));
            if t.len() > 0 {
                lemma_normalized_last(t);
                assert(t.last() == s[s.len() - 2]);
            }
            assert forall|i: int| 0 <= i < r.len() implies {
                &&& !('A' <= #[trigger] r[i] && r[i] <= 'Z')
                &&& (is_sep(r[i]) ==> r[i] == '-')
                &&& (i > 0 && is_sep(r[i]) ==> !is_sep(r[i - 1]))
            } by {
                if i < p.len() {
                    assert(r[i] == p[i]);
                    if i > 0 {
                        assert(r[i - 1] == p[i - 1]);
                    }
                } else {
                    if i > 0 {
                        assert(r[i - 1] == p.last());
                    }
                }
            }
        }
    }
}

proof fn lemma_normal_fixed(t: Seq<char>)
    requires
        is_normal(t),
    ensures
        normalized(t) == t,
    decreases t.len(),
{
    if t.len() > 0 {
        let u = t.drop_last();
        assert(is_normal(u)) by {
            assert forall|i: int| 0 <= i < u.len() implies {
                &&& !('A' <= #[trigger] u[i] && u[i] <= 'Z')
                &&& (is_sep(u[i]) ==> u[i] == '-')
                &&& (i > 0 && is_sep(u[i]) ==> !is_sep(u[i - 1]))
            } by {
                assert(u[i] == t[i]);
                if i > 0 {
                    assert(u[i - 1] == t[i - 1]);
                }
            }
        }
        lemma_normal_fixed(u);
        let n = t.len() - 1;
        assert(t[n] == t.last());
        if n > 0 {
            assert(t[n - 1] == t[t.len() - 2]);
        }
        assert(t =~= u.push(t.last()));
    }
}

proof fn lemma_normalized_congruent(a: Seq<char>, b: Seq<char>)
    requires
        a.len() == b.len(),
        forall|i: int| 0 <= i < a.len() ==> same_for_names(#[trigger] a[i], b[i]),
    ensures
        normalized(a) == normalized(b),
    decreases a.len(),
{
    if a.len() > 0 {
        let (x, y) = (a.drop_last(), b.drop_last());
        assert forall|i: int| 0 <= i < x.len() implies same_for_names(#[trigger] x[i], y[i]) by {
            assert(x[i] == a[i] && y[i] == b[i]);
        }
        lemma_normalized_congruent(x, y);
        assert(same_for_names(a[a.len() - 1], b[b.len() - 1]));
        if a.len() > 1 {
            assert(same_for_names(a[a.len() - 2], b[b.len() - 2]));
        }
    }
}

/// Normalizing twice gives what normalizing once gave, and names that
/// differ only in the case of ASCII letters or in which separators they
/// use normalize alike.
pub proof fn lemma_normalize_laws(s: Seq<char>, t: Seq<char>)
    ensures
        normalized(normalized(s)) == normalized(s),
        s.len() == t.len() && (forall|i: int| 0 <= i < s.len() ==> same_for_names(#[trigger] s[i], t[i]))
            ==> normalized(s) == normalized(t),
{
    lemma_normalized_is_normal(s);
    lemma_normal_fixed(normalized(s));
    if s.len() == t.len() && (forall|i: int| 0 <= i < s.len() ==> same_for_names(#[trigger] s[i], t[i])) {
        lemma_normalized_congruent(s, t);
    }
}

/// The normalized form of `name`.
pub fn normalize(name: &str) -> (r: String)
    ensures
        r@ == normalized(name@),
{
    let c = chars_of(name);
    let mut r = String::new();
    let mut i: usize = 0;
    while i < c.len()
        invariant
            i <= c.len(),
            r@ == normalized(c@.subrange(0, i as int)),
        decreases c.len() - i,
    {
        let ghost before = c@.subrange(0, i as int);
        let ghost now = c@.subrange(0, i + 1);
        proof {
            assert(now.drop_last() =~= before);
            assert(now.last() == c@[i as int]);
            if i > 0 {
                assert(now[now.len() - 2] == c@[i - 1]);
            }
        }
        let ch = c[i];
        if ch == '-' || ch == '_' || ch == '.' {
            if !(i > 0 && (c[i - 1] == '-' || c[i - 1] == '_' || c[i - 1] == '.')) {
                push_char(&mut r, '-');
            }
        } else {
            push_char(&mut r, to_ascii_lower(ch));
        }
        i += 1;
    }
    assert(c@.subrange(0, c.len() as int) =~= c@);
    r
}

} // verus!
