//! Choice among interpreter candidates found on the filesystem: which
//! file names look like interpreters, and one candidate per resolved
//! identity.
use vstd::prelude::*;
use crate::text::{chars_of, is_digit};

verus! {

pub open spec fn python_word() -> Seq<char> {
    seq!['p', 'y', 't', 'h', 'o', 'n']
}

/// `python`, then optionally a major version, then optionally `.` and a
/// minor version: `python`, `python3`, `python3.12`.
pub open spec fn is_interpreter_name(s: Seq<char>) -> bool {
    &&& s.len() >= 6
    &&& s.subrange(0, 6) == python_word()
    &&& {
        let rest = s.subrange(6, s.len() as int);
        ||| rest.len() == 0
        ||| (forall|i: int| 0 <= i < rest.len() ==> is_digit(#[trigger] rest[i]))
        ||| exists|d: int| 0 < d < rest.len() - 1 && rest[d] == '.'
            && (forall|i: int| 0 <= i < rest.len() && i != d ==> is_digit(#[trigger] rest[i]))
    }
}

/// Whether a file name looks like that of a Python interpreter.
pub fn is_interpreter_file_name(name: &str) -> (r: bool)
    ensures
        r == is_interpreter_name(name@),
{
    let c = chars_of(name);
    if c.len() < 6 || c[0] != 'p' || c[1] != 'y' || c[2] != 't' || c[3] != 'h' || c[4] != 'o' || c[5] != 'n' {
        proof {
            if c@.len() >= 6 && c@.subrange(0, 6) == python_word() {
                assert(c@.subrange(0, 6)[0] == c@[0]);
                assert(c@.subrange(0, 6)[1] == c@[1]);
                assert(c@.subrange(0, 6)[2] == c@[2]);
                assert(c@.subrange(0, 6)[3] == c@[3]);
                assert(c@.subrange(0, 6)[4] == c@[4]);
                assert(c@.subrange(0, 6)[5] == c@[5]);
            }
        }
        return false;
    }
    assert(c@.subrange(0, 6) =~= python_word());
    let ghost rest = c@.subrange(6, c@.len() as int);
    let mut dot: usize = 0;
    let mut dots: usize = 0;
    let mut i: usize = 6;
    while i < c.len()
        invariant
            6 <= i <= c@.len(),
            c@ == name@,
            c@.subrange(0, 6) == python_word(),
            rest == c@.subrange(6, c@.len() as int),
            dots <= 1,
            dots == 0 ==> forall|j: int| 0 <= j < i - 6 ==> is_digit(#[trigger] rest[j]),
            dots == 1 ==> 6 <= dot < i && c@[dot as int] == '.' && forall|j: int| 0 <= j < i - 6 && j != dot - 6 ==> is_digit(#[trigger] rest[j]),
        decreases c@.len() - i,
    {
        assert(rest[i - 6] == c@[i as int]);
        if c[i] == '.' {
            if dots == 1 {
                proof {
                    assert(rest.len() > 0);
                    assert(!(forall|j: int| 0 <= j < rest.len() ==> is_digit(#[trigger] rest[j]))) by {
                        assert(!is_digit(rest[i - 6]));
                    }
                    assert forall|d: int| 0 < d < rest.len() - 1 && rest[d] == '.' implies
                        !(forall|j: int| 0 <= j < rest.len() && j != d ==> is_digit(#[trigger] rest[j])) by {
                        if d != i - 6 {
                            assert(!is_digit(rest[i - 6]));
                        } else {
                            assert(rest[dot - 6] == c@[dot as int]);
                            assert(!is_digit(rest[dot - 6]));
                        }
                    }
                }
                return false;
            }
            dots = 1;
            dot = i;
        } else if !(c[i] >= '0' && c[i] <= '9') {
            proof {
                assert(rest.len() > 0);
                assert(!is_digit(rest[i - 6]));
                assert forall|d: int| 0 < d < rest.len() - 1 && rest[d] == '.' implies
                    !(forall|j: int| 0 <= j < rest.len() && j != d ==> is_digit(#[trigger] rest[j])) by {
                    assert(rest[i - 6] != '.');
                    assert(i - 6 != d);
                    assert(!is_digit(rest[i - 6]));
                }
            }
            return false;
        }
        i += 1;
    }
    if dots == 0 {
        return true;
    }
    proof {
        assert(rest[dot - 6] == c@[dot as int]);
    }
    if dot == 6 || dot == c.len() - 1 {
        proof {
            assert(!(forall|j: int| 0 <= j < rest.len() ==> is_digit(#[trigger] rest[j]))) by {
                assert(!is_digit(rest[dot - 6]));
            }
            assert forall|d: int| 0 < d < rest.len() - 1 && rest[d] == '.' implies
                !(forall|j: int| 0 <= j < rest.len() && j != d ==> is_digit(#[trigger] rest[j])) by {
                assert(d != dot - 6);
                assert(!is_digit(rest[dot - 6]));
            }
        }
        return false;
    }
    proof {
        let d = dot - 6;
        assert(0 < d < rest.len() - 1 && rest[d] == '.');
        assert(forall|j: int| 0 <= j < rest.len() && j != d ==> is_digit(#[trigger] rest[j]));
    }
    true
}

/// Candidate `i` is the first whose resolved identity is `ids[i]`.
pub open spec fn first_with_identity(ids: Seq<String>, i: int) -> bool {
    0 <= i < ids.len() && forall|j: int| 0 <= j < i ==> (#[trigger] ids[j])@ != ids[i]@
}

/// Some kept candidate has identity `k`.
pub open spec fn keeps(ids: Seq<String>, r: Seq<usize>, k: Seq<char>) -> bool {
    exists|a: int| 0 <= a < r.len() && (#[trigger] ids[r[a] as int])@ == k
}

/// Keeps one candidate per resolved identity: the first. `identities[i]`
/// is the canonical path of candidate `i`; the result lists the kept
/// candidates' indices in increasing order.
pub fn dedup_by_identity(identities: &Vec<String>) -> (r: Vec<usize>)
    ensures
        forall|a: int| 0 <= a < r@.len() ==> first_with_identity(identities@, #[trigger] r@[a] as int),
        forall|a: int, b: int| 0 <= a < b < r@.len() ==> (#[trigger] r@[a]) < (#[trigger] r@[b]),
        forall|j: int| 0 <= j < identities@.len() ==> keeps(identities@, r@, (#[trigger] identities@[j])@),
        forall|a: int, b: int| 0 <= a < r@.len() && 0 <= b < r@.len()
            && identities@[r@[a] as int]@ == identities@[r@[b] as int]@ ==> a == b,
{
    let mut r: Vec<usize> = Vec::new();
    let mut i: usize = 0;
    while i < identities.len()
        invariant
            i <= identities@.len(),
            forall|a: int| 0 <= a < r@.len() ==> (#[trigger] r@[a]) < i && first_with_identity(identities@, r@[a] as int),
            forall|a: int, b: int| 0 <= a < b < r@.len() ==> (#[trigger] r@[a]) < (#[trigger] r@[b]),
            forall|j: int| 0 <= j < i ==> keeps(identities@, r@, (#[trigger] identities@[j])@),
        decreases identities@.len() - i,
    {
        let mut seen = false;
        let mut j: usize = 0;
        while j < i
            invariant
                j <= i < identities@.len(),
                !seen ==> forall|k: int| 0 <= k < j ==> (#[trigger] identities@[k])@ != identities@[i as int]@,
                seen ==> exists|k: int| 0 <= k < i && (#[trigger] identities@[k])@ == identities@[i as int]@,
            decreases i - j,
        {
            if identities[j] == identities[i] {
                seen = true;
            }
            j += 1;
        }
        let ghost old_r = r@;
        if !seen {
            r.push(i);
            proof {
                assert(r@[old_r.len() as int] == i);
                assert forall|j2: int| 0 <= j2 < i + 1 implies keeps(identities@, r@, (#[trigger] identities@[j2])@) by {
                    if j2 < i {
                        let a = choose|a: int| 0 <= a < old_r.len() && (#[trigger] identities@[old_r[a] as int])@ == identities@[j2]@;
                        assert(r@[a] == old_r[a]);
                        assert(identities@[r@[a] as int]@ == identities@[j2]@);
                    } else {
                        assert(identities@[r@[old_r.len() as int] as int]@ == identities@[j2]@);
                    }
                }
            }
        } else {
            proof {
                let k = choose|k: int| 0 <= k < i && (#[trigger] identities@[k])@ == identities@[i as int]@;
                let a = choose|a: int| 0 <= a < r@.len() && (#[trigger] identities@[r@[a] as int])@ == identities@[k]@;
                assert(identities@[r@[a] as int]@ == identities@[i as int]@);
            }
        }
        i += 1;
    }
    proof {
        assert forall|a: int, b: int| 0 <= a < r@.len() && 0 <= b < r@.len()
            && identities@[r@[a] as int]@ == identities@[r@[b] as int]@ implies a == b by {
            if a < b {
                assert(r@[a] < r@[b]);
                assert(first_with_identity(identities@, r@[b] as int));
                assert(identities@[r@[a] as int]@ != identities@[r@[b] as int]@);
            } else if b < a {
                assert(r@[b] < r@[a]);
                assert(first_with_identity(identities@, r@[a] as int));
                assert(identities@[r@[b] as int]@ != identities@[r@[a] as int]@);
            }
        }
    }
    r
}

} // verus!
