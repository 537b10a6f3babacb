//! A collection of requirements keyed by normalized name, built from
//! requirement text; a later declaration of a name replaces an earlier one.
use vstd::prelude::*;
use crate::dep_spec::{constraints_model, spec_requirement, strip_ws, DepSpec, RequirementError};
use crate::name::{normalize, normalized};

verus! {

/// The key of a requirement: its normalized name.
pub open spec fn key_of(d: DepSpec) -> Seq<char> {
    normalized(d.name@)
}

impl DepSpec {
    /// This requirement is what `line` declares.
    pub open spec fn parsed_from(&self, line: Seq<char>) -> bool {
        match spec_requirement(line) {
            Ok((name, extras, items)) => self.name@ == name && self.extras@ == extras
                && constraints_model(self.constraints@, items),
            Err(_) => false,
        }
    }
}

/// A blank line or a comment line.
pub open spec fn is_skipped(line: Seq<char>) -> bool {
    let t = strip_ws(line);
    t.len() == 0 || t[0] == '#'
}

/// A line that declares a requirement.
pub open spec fn line_ok(line: Seq<char>) -> bool {
    !is_skipped(line) && spec_requirement(line) is Ok
}

/// The normalized name that a line declares.
pub open spec fn line_key(line: Seq<char>) -> Seq<char> {
    normalized(spec_requirement(line)->Ok_0.0)
}

/// The refused lines of `lines[..n]`, with their index.
pub open spec fn errors_of(lines: Seq<Seq<char>>, n: int) -> Seq<(usize, RequirementError)>
    decreases n,
{
    if n <= 0 {
        Seq::empty()
    } else {
        let rest = errors_of(lines, n - 1);
        let line = lines[n - 1];
        if !is_skipped(line) && spec_requirement(line) is Err {
            rest.push(((n - 1) as usize, spec_requirement(line)->Err_0))
        } else {
            rest
        }
    }
}

pub open spec fn views(lines: Seq<String>) -> Seq<Seq<char>> {
    lines.map_values(|l: String| l@)
}

/// Line `i` of `lines[..n]` declares `d`, and no later line of them
/// declares its name again.
pub open spec fn origin(lines: Seq<Seq<char>>, n: int, d: DepSpec, i: int) -> bool {
    &&& 0 <= i < n
    &&& line_ok(lines[i])
    &&& d.parsed_from(lines[i])
    &&& line_key(lines[i]) == key_of(d)
    &&& forall|i2: int| i < i2 < n && line_ok(#[trigger] lines[i2]) ==> line_key(lines[i2]) != key_of(d)
}

/// Some line of `lines[..n]` is the last to declare `d`.
pub open spec fn has_origin(lines: Seq<Seq<char>>, n: int, d: DepSpec) -> bool {
    exists|i: int| #[trigger] origin(lines, n, d, i)
}

/// Requirements with pairwise distinct keys.
pub struct DepManifest {
    pub specs: Vec<DepSpec>,
}

impl DepManifest {
    pub open spec fn wf(&self) -> bool {
        forall|i: int, j: int| 0 <= i < j < self.specs@.len()
            ==> key_of(#[trigger] self.specs@[i]) != key_of(#[trigger] self.specs@[j])
    }

    /// Some requirement of the manifest has key `k`.
    pub open spec fn has_key(&self, k: Seq<char>) -> bool {
        exists|j: int| 0 <= j < self.specs@.len() && key_of(#[trigger] self.specs@[j]) == k
    }

    /// The manifest holds, for each name declared in `lines[..n]`, what
    /// the last line declaring it says, and nothing else.
    pub open spec fn built_from(&self, lines: Seq<Seq<char>>, n: int) -> bool {
        &&& self.wf()
        &&& forall|i: int| 0 <= i < n && line_ok(#[trigger] lines[i]) ==> self.has_key(line_key(lines[i]))
        &&& forall|j: int| 0 <= j < self.specs@.len() ==> has_origin(lines, n, #[trigger] self.specs@[j])
    }

    /// Where the requirement keyed `k` stands, if any.
    pub fn find_key(&self, k: &String) -> (r: Option<usize>)
        ensures
            r matches Some(j) ==> j < self.specs@.len() && key_of(self.specs@[j as int]) == k@,
            r is None ==> !self.has_key(k@),
    {
        let mut j: usize = 0;
        while j < self.specs.len()
            invariant
                j <= self.specs@.len(),
                forall|i: int| 0 <= i < j ==> key_of(#[trigger] self.specs@[i]) != k@,
            decreases self.specs@.len() - j,
        {
            let kj = normalize(self.specs[j].name.as_str());
            if kj == *k {
                return Some(j);
            }
            j += 1;
        }
        None
    }

    /// The requirement declared for `name`, compared after normalization.
    pub fn lookup(&self, name: &str) -> (r: Option<usize>)
        ensures
            r matches Some(j) ==> j < self.specs@.len() && key_of(self.specs@[j as int]) == normalized(name@),
            r is None ==> !self.has_key(normalized(name@)),
    {
        let k = normalize(name);
        self.find_key(&k)
    }

    /// Builds a manifest from requirement lines. Blank lines and lines
    /// starting with `#` are skipped; refused lines are returned with their
    /// index and leave the manifest as it was.
    pub fn from_lines(lines: &Vec<String>) -> (r: (DepManifest, Vec<(usize, RequirementError)>))
        ensures
            r.0.built_from(views(lines@), lines@.len() as int),
            r.1@ == errors_of(views(lines@), lines@.len() as int),
    {
        let ghost ls = views(lines@);
        let mut m = DepManifest { specs: Vec::new() };
        let mut errors: Vec<(usize, RequirementError)> = Vec::new();
        let mut i: usize = 0;
        while i < lines.len()
            invariant
                ls == views(lines@),
                ls.len() == lines@.len(),
                i <= lines@.len(),
                m.built_from(ls, i as int),
                errors@ == errors_of(ls, i as int),
            decreases lines@.len() - i,
        {
            let line = lines[i].as_str();
            assert(line@ == ls[i as int]);
            let skipped = is_blank_or_comment(line);
            if !skipped {
                match DepSpec::parse(line) {
                    Err(e) => {
                        errors.push((i, e));
                        proof { lemma_built_from_step(m, ls, i as int); }
                    },
                    Ok(d) => {
                        m.insert(d, Ghost(ls), Ghost(i as int));
                    },
                }
            } else {
                proof { lemma_built_from_step(m, ls, i as int); }
            }
            i += 1;
        }
        (m, errors)
    }

    /// Adds requirement `d`, declared by line `i`, replacing the one with
    /// the same key.
    fn insert(&mut self, d: DepSpec, Ghost(ls): Ghost<Seq<Seq<char>>>, Ghost(i): Ghost<int>)
        requires
            0 <= i < ls.len(),
            old(self).built_from(ls, i),
            line_ok(ls[i]),
            d.parsed_from(ls[i]),
        ensures
            final(self).built_from(ls, i + 1),
    {
        let k = normalize(d.name.as_str());
        assert(k@ == line_key(ls[i]));
        let ghost before = self.specs@;
        match self.find_key(&k) {
            Some(j) => {
                self.specs.set(j, d);
                proof {
                    let s = self.specs@;
                    assert forall|a: int, b: int| 0 <= a < b < s.len() implies key_of(#[trigger] s[a]) != key_of(#[trigger] s[b]) by {
                        assert(key_of(before[a]) != key_of(before[b]));
                    }
                    assert forall|i0: int| 0 <= i0 < i + 1 && line_ok(#[trigger] ls[i0]) implies self.has_key(line_key(ls[i0])) by {
                        if i0 < i {
                            let jj = choose|jj: int| 0 <= jj < before.len() && key_of(#[trigger] before[jj]) == line_key(ls[i0]);
                            assert(key_of(s[jj]) == line_key(ls[i0]));
                        } else {
                            assert(key_of(s[j as int]) == line_key(ls[i0]));
                        }
                    }
                    assert forall|jj: int| 0 <= jj < s.len() implies has_origin(ls, i + 1, s[jj]) by {
                        if jj == j {
                            assert(s[jj] == d);
                            assert(origin(ls, i + 1, s[jj], i));
                        } else {
                            assert(s[jj] == before[jj]);
                            assert(key_of(before[jj]) != key_of(before[j as int])) by {
                                if jj < j { assert(key_of(before[jj]) != key_of(before[j as int])); }
                                else { assert(key_of(before[j as int]) != key_of(before[jj])); }
                            }
                            let i1 = choose|i1: int| #[trigger] origin(ls, i, before[jj], i1);
                            assert forall|i2: int| i1 < i2 < i + 1 && line_ok(#[trigger] ls[i2]) implies line_key(ls[i2]) != key_of(before[jj]) by {
                                if i2 < i {
                                    assert(origin(ls, i, before[jj], i1));
                                }
                            }
                            assert(origin(ls, i + 1, s[jj], i1));
                        }
                    }
                }
            },
            None => {
                self.specs.push(d);
                proof {
                    let s = self.specs@;
                    assert forall|a: int, b: int| 0 <= a < b < s.len() implies key_of(#[trigger] s[a]) != key_of(#[trigger] s[b]) by {
                        if b < before.len() {
                            assert(key_of(before[a]) != key_of(before[b]));
                        } else {
                            assert(s[a] == before[a]);
                        }
                    }
                    assert forall|i0: int| 0 <= i0 < i + 1 && line_ok(#[trigger] ls[i0]) implies self.has_key(line_key(ls[i0])) by {
                        if i0 < i {
                            let jj = choose|jj: int| 0 <= jj < before.len() && key_of(#[trigger] before[jj]) == line_key(ls[i0]);
                            assert(s[jj] == before[jj]);
                        } else {
                            assert(key_of(s[before.len() as int]) == line_key(ls[i0]));
                        }
                    }
                    assert forall|jj: int| 0 <= jj < s.len() implies has_origin(ls, i + 1, s[jj]) by {
                        if jj == before.len() {
                            assert(s[jj] == d);
                            assert(origin(ls, i + 1, s[jj], i));
                        } else {
                            assert(s[jj] == before[jj]);
                            let i1 = choose|i1: int| #[trigger] origin(ls, i, before[jj], i1);
                            assert(key_of(before[jj]) != k@);
                            assert forall|i2: int| i1 < i2 < i + 1 && line_ok(#[trigger] ls[i2]) implies line_key(ls[i2]) != key_of(before[jj]) by {
                                if i2 < i {
                                    assert(origin(ls, i, before[jj], i1));
                                }
                            }
                            assert(origin(ls, i + 1, s[jj], i1));
                        }
                    }
                }
            },
        }
    }
}

/// `d` stands in `s` at some index.
pub open spec fn holds_spec(s: Seq<DepSpec>, d: DepSpec) -> bool {
    exists|a: int| 0 <= a < s.len() && #[trigger] s[a] == d
}

/// `k` is the key of a requirement in `s[from..]`.
pub open spec fn key_in_tail(s: Seq<DepSpec>, from: int, k: Seq<char>) -> bool {
    exists|b: int| from <= b < s.len() && key_of(#[trigger] s[b]) == k
}

impl DepManifest {
    /// Puts `d` in place of the requirement with the same key, or adds it.
    fn put(&mut self, d: DepSpec)
        requires
            old(self).wf(),
        ensures
            final(self).wf(),
            forall|k: Seq<char>| final(self).has_key(k) <==> old(self).has_key(k) || k == key_of(d),
            forall|j: int| 0 <= j < final(self).specs@.len() ==> {
                let e = #[trigger] final(self).specs@[j];
                e == d || (holds_spec(old(self).specs@, e) && key_of(e) != key_of(d))
            },
    {
        let k = normalize(d.name.as_str());
        let ghost before = self.specs@;
        let ghost dk = key_of(d);
        match self.find_key(&k) {
            Some(j) => {
                self.specs.set(j, d);
                proof {
                    let s = self.specs@;
                    assert forall|a: int, b: int| 0 <= a < b < s.len() implies key_of(#[trigger] s[a]) != key_of(#[trigger] s[b]) by {
                        assert(key_of(before[a]) != key_of(before[b]));
                    }
                    assert forall|k2: Seq<char>| self.has_key(k2) <==> (exists|jj: int| 0 <= jj < before.len() && key_of(#[trigger] before[jj]) == k2) || k2 == dk by {
                        if self.has_key(k2) {
                            let jj = choose|jj: int| 0 <= jj < s.len() && key_of(#[trigger] s[jj]) == k2;
                            if jj != j { assert(s[jj] == before[jj]); }
                        }
                        if exists|jj: int| 0 <= jj < before.len() && key_of(#[trigger] before[jj]) == k2 {
                            let jj = choose|jj: int| 0 <= jj < before.len() && key_of(#[trigger] before[jj]) == k2;
                            if jj != j { assert(s[jj] == before[jj]); } else { assert(key_of(s[jj]) == k2); }
                        }
                        if k2 == dk { assert(key_of(s[j as int]) == k2); }
                    }
                    assert forall|jj: int| 0 <= jj < s.len() implies {
                        let e = #[trigger] s[jj];
                        e == d || (holds_spec(before, e) && key_of(e) != dk)
                    } by {
                        if jj != j {
                            assert(s[jj] == before[jj]);
                            if jj < j { assert(key_of(before[jj]) != key_of(before[j as int])); }
                            else { assert(key_of(before[j as int]) != key_of(before[jj])); }
                        }
                    }
                }
            },
            None => {
                self.specs.push(d);
                proof {
                    let s = self.specs@;
                    assert forall|a: int, b: int| 0 <= a < b < s.len() implies key_of(#[trigger] s[a]) != key_of(#[trigger] s[b]) by {
                        if b < before.len() {
                            assert(key_of(before[a]) != key_of(before[b]));
                        } else {
                            assert(s[a] == before[a]);
                        }
                    }
                    assert forall|k2: Seq<char>| self.has_key(k2) <==> (exists|jj: int| 0 <= jj < before.len() && key_of(#[trigger] before[jj]) == k2) || k2 == dk by {
                        if self.has_key(k2) {
                            let jj = choose|jj: int| 0 <= jj < s.len() && key_of(#[trigger] s[jj]) == k2;
                            if jj < before.len() { assert(s[jj] == before[jj]); }
                        }
                        if exists|jj: int| 0 <= jj < before.len() && key_of(#[trigger] before[jj]) == k2 {
                            let jj = choose|jj: int| 0 <= jj < before.len() && key_of(#[trigger] before[jj]) == k2;
                            assert(s[jj] == before[jj]);
                        }
                        if k2 == dk { assert(key_of(s[before.len() as int]) == k2); }
                    }
                    assert forall|jj: int| 0 <= jj < s.len() implies {
                        let e = #[trigger] s[jj];
                        e == d || (holds_spec(before, e) && key_of(e) != dk)
                    } by {
                        if jj < before.len() {
                            assert(s[jj] == before[jj]);
                            assert(key_of(before[jj]) != dk);
                        }
                    }
                }
            },
        }
    }

    /// A new manifest with the requirements of both; where both declare a
    /// name, the one from `other` wins.
    pub fn merge(self, other: DepManifest) -> (r: DepManifest)
        requires
            self.wf(),
            other.wf(),
        ensures
            r.wf(),
            forall|k: Seq<char>| r.has_key(k) <==> self.has_key(k) || other.has_key(k),
            forall|j: int| 0 <= j < r.specs@.len() ==> {
                let e = #[trigger] r.specs@[j];
                holds_spec(other.specs@, e) || (holds_spec(self.specs@, e) && !other.has_key(key_of(e)))
            },
    {
        let ghost o = other.specs@;
        let ghost s0 = self.specs@;
        let mut m = self;
        let mut rest = other.specs;
        assert forall|j: int| 0 <= j < m.specs@.len() implies {
            let e = #[trigger] m.specs@[j];
            key_in_tail(o, rest@.len() as int, key_of(e)) ==> holds_spec(o, e)
        } by {}
        while rest.len() > 0
            invariant
                m.wf(),
                rest@.len() <= o.len(),
                rest@ == o.subrange(0, rest@.len() as int),
                forall|k: Seq<char>| m.has_key(k) <==> (exists|a: int| 0 <= a < s0.len() && key_of(#[trigger] s0[a]) == k)
                    || key_in_tail(o, rest@.len() as int, k),
                forall|j: int| 0 <= j < m.specs@.len() ==> {
                    let e = #[trigger] m.specs@[j];
                    (holds_spec(o, e) && key_in_tail(o, rest@.len() as int, key_of(e)))
                        || (holds_spec(s0, e) && !key_in_tail(o, rest@.len() as int, key_of(e)))
                },
            decreases rest@.len(),
        {
            let n = rest.len() - 1;
            let d = match rest.pop() {
                Some(d) => d,
                None => { return m; },
            };
            let ghost mb = m.specs@;
            let ghost n_old = n + 1;
            assert(d == o[n as int]);
            assert(rest@ =~= o.subrange(0, n as int));
            m.put(d);
            proof {
                assert forall|k: Seq<char>| key_in_tail(o, n as int, k) <==> key_in_tail(o, n_old, k) || k == key_of(d) by {
                    if key_in_tail(o, n as int, k) {
                        let b = choose|b: int| n <= b < o.len() && key_of(#[trigger] o[b]) == k;
                        if b > n { assert(key_in_tail(o, n_old, k)); }
                    }
                    if key_in_tail(o, n_old, k) {
                        let b = choose|b: int| n_old <= b < o.len() && key_of(#[trigger] o[b]) == k;
                        assert(key_in_tail(o, n as int, k));
                    }
                    if k == key_of(d) {
                        assert(key_of(o[n as int]) == k);
                    }
                }
                assert forall|j: int| 0 <= j < m.specs@.len() implies {
                    let e = #[trigger] m.specs@[j];
                    (holds_spec(o, e) && key_in_tail(o, n as int, key_of(e)))
                        || (holds_spec(s0, e) && !key_in_tail(o, n as int, key_of(e)))
                } by {
                    let e = m.specs@[j];
                    if e == d {
                        assert(o[n as int] == e);
                        assert(key_of(o[n as int]) == key_of(e));
                    } else {
                        let a = choose|a: int| 0 <= a < mb.len() && #[trigger] mb[a] == e;
                        assert(mb[a] == e);
                    }
                }
            }
        }
        proof {
            assert forall|k: Seq<char>| m.has_key(k) <==> has_key_in(s0, k) || other.has_key(k) by {
                if key_in_tail(o, 0, k) {
                    let b = choose|b: int| 0 <= b < o.len() && key_of(#[trigger] o[b]) == k;
                }
                if other.has_key(k) {
                    let b = choose|b: int| 0 <= b < o.len() && key_of(#[trigger] o[b]) == k;
                    assert(key_in_tail(o, 0, k));
                }
            }
            assert forall|j: int| 0 <= j < m.specs@.len() implies {
                let e = #[trigger] m.specs@[j];
                holds_spec(o, e) || (holds_spec(s0, e) && !other.has_key(key_of(e)))
            } by {
                let e = m.specs@[j];
                if other.has_key(key_of(e)) {
                    let b = choose|b: int| 0 <= b < o.len() && key_of(#[trigger] o[b]) == key_of(e);
                    assert(key_in_tail(o, 0, key_of(e)));
                }
            }
        }
        m
    }
}

/// Some requirement in `s` has key `k`.
pub open spec fn has_key_in(s: Seq<DepSpec>, k: Seq<char>) -> bool {
    exists|a: int| 0 <= a < s.len() && key_of(#[trigger] s[a]) == k
}

/// A line that is not ok extends nothing.
proof fn lemma_built_from_step(m: DepManifest, ls: Seq<Seq<char>>, i: int)
    requires
        0 <= i < ls.len(),
        m.built_from(ls, i),
        !line_ok(ls[i]),
    ensures
        m.built_from(ls, i + 1),
{
    assert forall|i0: int| 0 <= i0 < i + 1 && line_ok(#[trigger] ls[i0]) implies m.has_key(line_key(ls[i0])) by {
        assert(i0 < i);
    }
    assert forall|jj: int| 0 <= jj < m.specs@.len() implies has_origin(ls, i + 1, m.specs@[jj]) by {
        let i1 = choose|i1: int| #[trigger] origin(ls, i, m.specs@[jj], i1);
        assert(line_ok(ls[i1]));
        assert forall|i2: int| i1 < i2 < i + 1 && line_ok(#[trigger] ls[i2]) implies line_key(ls[i2]) != key_of(m.specs@[jj]) by {
            assert(i2 < i);
            assert(origin(ls, i, m.specs@[jj], i1));
        }
        assert(origin(ls, i + 1, m.specs@[jj], i1));
    }
}

/// Whether a line is blank or a comment.
fn is_blank_or_comment(line: &str) -> (r: bool)
    ensures
        r == is_skipped(line@),
{
    let c = crate::text::chars_of(line);
    let mut i: usize = 0;
    while i < c.len() && (c[i] == ' ' || c[i] == '\t' || c[i] == '\r' || c[i] == '\n')
        invariant
            i <= c.len(),
            forall|j: int| 0 <= j < i ==> crate::dep_spec::is_ws(#[trigger] c@[j]),
        decreases c.len() - i,
    {
        i += 1;
    }
    proof { lemma_strip_ws_front(c@, i as int); }
    i == c.len() || c[i] == '#'
}

/// With only whitespace before `i`, stripping starts at the first
/// character at or after `i` that is not whitespace.
proof fn lemma_strip_ws_front(s: Seq<char>, i: int)
    requires
        0 <= i <= s.len(),
        forall|j: int| 0 <= j < i ==> crate::dep_spec::is_ws(#[trigger] s[j]),
        i < s.len() ==> !crate::dep_spec::is_ws(s[i]),
    ensures
        i == s.len() ==> strip_ws(s).len() == 0,
        i < s.len() ==> strip_ws(s).len() > 0 && strip_ws(s)[0] == s[i],
    decreases s.len(),
{
    if s.len() > 0 {
        let t = s.drop_last();
        if i == s.len() {
            assert forall|j: int| 0 <= j < t.len() implies crate::dep_spec::is_ws(#[trigger] t[j]) by {
                assert(t[j] == s[j]);
            }
            assert(crate::dep_spec::is_ws(s[s.len() - 1]));
            lemma_strip_ws_front(t, i - 1);
        } else if i == s.len() - 1 {
            assert forall|j: int| 0 <= j < t.len() implies crate::dep_spec::is_ws(#[trigger] t[j]) by {
                assert(t[j] == s[j]);
            }
            lemma_strip_ws_front(t, i);
        } else {
            assert forall|j: int| 0 <= j < i implies crate::dep_spec::is_ws(#[trigger] t[j]) by {
                assert(t[j] == s[j]);
            }
            assert(t[i] == s[i]);
            lemma_strip_ws_front(t, i);
        }
    }
}

} // verus!
