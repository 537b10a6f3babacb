//! Declared requirements: one name with a conjunction of version
//! constraints.
use vstd::prelude::*;
use crate::name::{normalize, normalized};
use crate::package::Package;
use crate::text::{chars_of, find_char, find_from, lemma_find_from_range, occurs_at, push_char, string_of, sub_vec};
use crate::version::{spec_satisfies, Operator, VersionSpec};

verus! {

/// Why a requirement line was refused.
#[derive(PartialEq, Eq, Structural, Clone, Copy, Debug)]
pub enum RequirementError {
    InvalidName,
    UnclosedExtras,
    UnknownOperator,
    MissingVersion,
}

/// One `(operator, version)` constraint.
#[derive(Clone, Debug)]
pub struct Constraint {
    pub op: Operator,
    pub version: VersionSpec,
}

/// A declared requirement: the name as written, the extras as written, and
/// constraints that must all hold.
#[derive(Clone, Debug)]
pub struct DepSpec {
    pub name: String,
    pub extras: String,
    pub constraints: Vec<Constraint>,
}

pub open spec fn is_ws(c: char) -> bool {
    c == ' ' || c == '\t' || c == '\r' || c == '\n'
}

/// `s` with its whitespace removed.
pub open spec fn strip_ws(s: Seq<char>) -> Seq<char>
    decreases s.len(),
{
    if s.len() == 0 {
        s
    } else if is_ws(s.last()) {
        strip_ws(s.drop_last())
    } else {
        strip_ws(s.drop_last()).push(s.last())
    }
}

pub open spec fn is_name_char(c: char) -> bool {
    ('a' <= c && c <= 'z') || ('A' <= c && c <= 'Z') || ('0' <= c && c <= '9') || c == '-' || c == '_' || c == '.'
}

/// The first index at or after `i` that does not hold a name character.
pub open spec fn name_end(t: Seq<char>, i: int) -> int
    decreases t.len() - i,
{
    if i < 0 || i >= t.len() || !is_name_char(t[i]) {
        i
    } else {
        name_end(t, i + 1)
    }
}

/// The first index at or after `i` that does not hold whitespace.
pub open spec fn ws_end(t: Seq<char>, i: int) -> int
    decreases t.len() - i,
{
    if i < 0 || i >= t.len() || !is_ws(t[i]) {
        i
    } else {
        ws_end(t, i + 1)
    }
}

/// The name, as written, is broken by whitespace: after the leading
/// whitespace comes a run of name characters, then whitespace, then
/// another name character.
pub open spec fn name_has_gap(line: Seq<char>) -> bool {
    let a = ws_end(line, 0);
    let n = name_end(line, a);
    let m = ws_end(line, n);
    n > a && m > n && m < line.len() && is_name_char(line[m])
}

/// A character that may follow a name: extras or an operator.
pub open spec fn may_follow_name(c: char) -> bool {
    c == '[' || c == '=' || c == '!' || c == '<' || c == '>' || c == '~'
}

pub open spec fn starts_with(s: Seq<char>, w: Seq<char>) -> bool {
    w.len() <= s.len() && s.subrange(0, w.len() as int) == w
}

/// The operator that `item` begins with, and its length.
pub open spec fn op_prefix(item: Seq<char>) -> Option<(Operator, int)> {
    if starts_with(item, seq!['=', '=', '=']) {
        Some((Operator::Arbitrary, 3))
    } else if starts_with(item, seq!['~', '=']) {
        Some((Operator::Compatible, 2))
    } else if starts_with(item, seq!['=', '=']) {
        Some((Operator::Eq, 2))
    } else if starts_with(item, seq!['!', '=']) {
        Some((Operator::Ne, 2))
    } else if starts_with(item, seq!['<', '=']) {
        Some((Operator::Le, 2))
    } else if starts_with(item, seq!['>', '=']) {
        Some((Operator::Ge, 2))
    } else if starts_with(item, seq!['<']) {
        Some((Operator::Lt, 1))
    } else if starts_with(item, seq!['>']) {
        Some((Operator::Gt, 1))
    } else {
        None
    }
}

/// One constraint item: an operator and the version text after it.
pub open spec fn spec_item(item: Seq<char>) -> Result<(Operator, Seq<char>), RequirementError> {
    match op_prefix(item) {
        None => Err(RequirementError::UnknownOperator),
        Some((op, n)) => if n >= item.len() {
            Err(RequirementError::MissingVersion)
        } else {
            Ok((op, item.subrange(n, item.len() as int)))
        },
    }
}

/// The comma-separated constraint items of `u` from `p` on.
pub open spec fn spec_items(u: Seq<char>, p: int) -> Result<Seq<(Operator, Seq<char>)>, RequirementError>
    decreases u.len() - p,
{
    let q = find_from(u, ',', p);
    if p < 0 || p > u.len() || q < p || q > u.len() {
        Ok(Seq::empty())
    } else {
        match spec_item(u.subrange(p, q)) {
            Err(e) => Err(e),
            Ok(it) => if q >= u.len() {
                Ok(seq![it])
            } else {
                match spec_items(u, q + 1) {
                    Err(e) => Err(e),
                    Ok(rest) => Ok(seq![it] + rest),
                }
            },
        }
    }
}

/// The requirement text before any `;` (environment markers are not
/// evaluated), without whitespace.
pub open spec fn requirement_body(line: Seq<char>) -> Seq<char> {
    let t = strip_ws(line);
    t.subrange(0, find_from(t, ';', 0))
}

/// What a requirement line declares: its name, its extras and its
/// constraint items; or why it is refused.
pub open spec fn spec_requirement(line: Seq<char>) -> Result<(Seq<char>, Seq<char>, Seq<(Operator, Seq<char>)>), RequirementError> {
    let u = requirement_body(line);
    let n = name_end(u, 0);
    if name_has_gap(line) || n == 0 || (n < u.len() && !may_follow_name(u[n])) {
        Err(RequirementError::InvalidName)
    } else {
        let close = find_from(u, ']', n);
        if n < u.len() && u[n] == '[' && close >= u.len() {
            Err(RequirementError::UnclosedExtras)
        } else {
            let has_extras = n < u.len() && u[n] == '[';
            let extras = if has_extras { u.subrange(n + 1, close) } else { Seq::empty() };
            let after = if has_extras { close + 1 } else { n };
            if after >= u.len() {
                Ok((u.subrange(0, n), extras, Seq::empty()))
            } else {
                match spec_items(u, after) {
                    Err(e) => Err(e),
                    Ok(items) => Ok((u.subrange(0, n), extras, items)),
                }
            }
        }
    }
}

/// The constraints hold the operators and versions that `items` name.
pub open spec fn constraints_model(cs: Seq<Constraint>, items: Seq<(Operator, Seq<char>)>) -> bool {
    &&& cs.len() == items.len()
    &&& forall|i: int| 0 <= i < cs.len() ==> {
        &&& (#[trigger] cs[i]).op == items[i].0
        &&& cs[i].version.parsed_from(items[i].1)
    }
}

fn strip_whitespace(c: &Vec<char>) -> (r: Vec<char>)
    ensures
        r@ == strip_ws(c@),
{
    let mut r: Vec<char> = Vec::new();
    let mut i: usize = 0;
    while i < c.len()
        invariant
            i <= c.len(),
            r@ == strip_ws(c@.subrange(0, i as int)),
        decreases c.len() - i,
    {
        proof {
            let now = c@.subrange(0, i + 1);
            assert(now.drop_last() =~= c@.subrange(0, i as int));
            assert(now.last() == c@[i as int]);
        }
        let ch = c[i];
        if !(ch == ' ' || ch == '\t' || ch == '\r' || ch == '\n') {
            r.push(ch);
        }
        i += 1;
    }
    assert(c@.subrange(0, c.len() as int) =~= c@);
    r
}

fn skip_ws(u: &Vec<char>, i: usize) -> (r: usize)
    requires
        i <= u.len(),
    ensures
        r as int == ws_end(u@, i as int),
        i <= r <= u.len(),
{
    let mut j: usize = i;
    while j < u.len() && (u[j] == ' ' || u[j] == '\t' || u[j] == '\r' || u[j] == '\n')
        invariant
            i <= j <= u.len(),
            ws_end(u@, i as int) == ws_end(u@, j as int),
        decreases u.len() - j,
    {
        j += 1;
    }
    j
}

fn has_name_gap(c: &Vec<char>) -> (r: bool)
    ensures
        r == name_has_gap(c@),
{
    let a = skip_ws(c, 0);
    let n = find_name_end(c, a);
    let m = skip_ws(c, n);
    n > a && m > n && m < c.len() && ((c[m] >= 'a' && c[m] <= 'z') || (c[m] >= 'A' && c[m] <= 'Z')
        || (c[m] >= '0' && c[m] <= '9') || c[m] == '-' || c[m] == '_' || c[m] == '.')
}

fn find_name_end(u: &Vec<char>, i: usize) -> (r: usize)
    requires
        i <= u.len(),
    ensures
        r as int == name_end(u@, i as int),
        i <= r <= u.len(),
{
    let mut j: usize = i;
    while j < u.len() && (
        (u[j] >= 'a' && u[j] <= 'z') || (u[j] >= 'A' && u[j] <= 'Z') || (u[j] >= '0' && u[j] <= '9')
            || u[j] == '-' || u[j] == '_' || u[j] == '.')
        invariant
            i <= j <= u.len(),
            name_end(u@, i as int) == name_end(u@, j as int),
        decreases u.len() - j,
    {
        j += 1;
    }
    j
}

fn parse_item(item: &Vec<char>) -> (r: Result<Constraint, RequirementError>)
    ensures
        match (r, spec_item(item@)) {
            (Ok(c), Ok((op, text))) => c.op == op && c.version.parsed_from(text),
            (Err(e), Err(f)) => e == f,
            _ => false,
        },
{
    let w3 = vec!['=', '=', '='];
    let wc = vec!['~', '='];
    let we = vec!['=', '='];
    let wn = vec!['!', '='];
    let wle = vec!['<', '='];
    let wge = vec!['>', '='];
    let wl = vec!['<'];
    let wg = vec!['>'];
    proof {
        assert(w3@ =~= seq!['=', '=', '=']);
        assert(wc@ =~= seq!['~', '=']);
        assert(we@ =~= seq!['=', '=']);
        assert(wn@ =~= seq!['!', '=']);
        assert(wle@ =~= seq!['<', '=']);
        assert(wge@ =~= seq!['>', '=']);
        assert(wl@ =~= seq!['<']);
        assert(wg@ =~= seq!['>']);
    }
    let (op, n): (Operator, usize) = if occurs_at(item, 0, &w3) {
        (Operator::Arbitrary, 3)
    } else if occurs_at(item, 0, &wc) {
        (Operator::Compatible, 2)
    } else if occurs_at(item, 0, &we) {
        (Operator::Eq, 2)
    } else if occurs_at(item, 0, &wn) {
        (Operator::Ne, 2)
    } else if occurs_at(item, 0, &wle) {
        (Operator::Le, 2)
    } else if occurs_at(item, 0, &wge) {
        (Operator::Ge, 2)
    } else if occurs_at(item, 0, &wl) {
        (Operator::Lt, 1)
    } else if occurs_at(item, 0, &wg) {
        (Operator::Gt, 1)
    } else {
        return Err(RequirementError::UnknownOperator);
    };
    if n >= item.len() {
        return Err(RequirementError::MissingVersion);
    }
    let text = sub_vec(item, n, item.len());
    Ok(Constraint { op, version: VersionSpec::from_chars(&text) })
}

fn parse_items(u: &Vec<char>, p: usize) -> (r: Result<Vec<Constraint>, RequirementError>)
    requires
        p <= u.len(),
    ensures
        match (r, spec_items(u@, p as int)) {
            (Ok(cs), Ok(items)) => constraints_model(cs@, items),
            (Err(e), Err(f)) => e == f,
            _ => false,
        },
    decreases u.len() - p,
{
    let q = find_char(u, ',', p);
    let item = sub_vec(u, p, q);
    let c = match parse_item(&item) {
        Err(e) => { return Err(e); },
        Ok(c) => c,
    };
    let ghost it = spec_item(item@)->Ok_0;
    if q >= u.len() {
        let v = vec![c];
        assert(constraints_model(v@, seq![it]));
        return Ok(v);
    }
    match parse_items(u, q + 1) {
        Err(e) => Err(e),
        Ok(rest) => {
            let ghost rest_items = spec_items(u@, q + 1)->Ok_0;
            let mut v = vec![c];
            let ghost rest_view = rest@;
            let mut rest = rest;
            v.append(&mut rest);
            proof {
                assert(v@ =~= seq![c] + rest_view);
                let all = seq![it] + rest_items;
                assert forall|i: int| 0 <= i < v@.len() implies {
                    &&& (#[trigger] v@[i]).op == all[i].0
                    &&& v@[i].version.parsed_from(all[i].1)
                } by {
                    if i > 0 {
                        assert(v@[i] == rest_view[i - 1]);
                        assert(all[i] == rest_items[i - 1]);
                    }
                }
            }
            Ok(v)
        },
    }
}

impl DepSpec {
    /// Parses one requirement line, such as `numpy>=1.20,<2.0`.
    pub fn parse(line: &str) -> (r: Result<DepSpec, RequirementError>)
        ensures
            match (r, spec_requirement(line@)) {
                (Ok(d), Ok((name, extras, items))) =>
                    d.name@ == name && d.extras@ == extras && constraints_model(d.constraints@, items),
                (Err(e), Err(f)) => e == f,
                _ => false,
            },
    {
        let c = chars_of(line);
        let t = strip_whitespace(&c);
        let semi = find_char(&t, ';', 0);
        let u = sub_vec(&t, 0, semi);
        assert(u@ == requirement_body(line@));
        let n = find_name_end(&u, 0);
        if has_name_gap(&c) || n == 0 || (n < u.len() && !(u[n] == '[' || u[n] == '=' || u[n] == '!' || u[n] == '<' || u[n] == '>' || u[n] == '~')) {
            return Err(RequirementError::InvalidName);
        }
        let close = find_char(&u, ']', n);
        if n < u.len() && u[n] == '[' && close >= u.len() {
            return Err(RequirementError::UnclosedExtras);
        }
        let has_extras = n < u.len() && u[n] == '[';
        proof {
            lemma_find_from_range(u@, ']', n as int);
        }
        let extras = if has_extras { string_of(&u, n + 1, close) } else {
            let e = String::new();
            e
        };
        let after: usize = if has_extras { close + 1 } else { n };
        let name = string_of(&u, 0, n);
        if after >= u.len() {
            return Ok(DepSpec { name, extras, constraints: Vec::new() });
        }
        match parse_items(&u, after) {
            Err(e) => Err(e),
            Ok(constraints) => Ok(DepSpec { name, extras, constraints }),
        }
    }
}

/// Indices of the constraints among `cs` that `v` does not meet, in order.
pub open spec fn violated_of(v: VersionSpec, cs: Seq<Constraint>) -> Seq<usize>
    decreases cs.len(),
{
    if cs.len() == 0 {
        Seq::empty()
    } else {
        let rest = violated_of(v, cs.drop_last());
        let c = cs.last();
        if spec_satisfies(v, c.op, c.version) { rest } else { rest.push((cs.len() - 1) as usize) }
    }
}

pub proof fn lemma_violated_empty(v: VersionSpec, cs: Seq<Constraint>)
    ensures
        violated_of(v, cs).len() == 0 <==> forall|i: int| 0 <= i < cs.len()
            ==> spec_satisfies(v, (#[trigger] cs[i]).op, cs[i].version),
    decreases cs.len(),
{
    if cs.len() > 0 {
        let d = cs.drop_last();
        lemma_violated_empty(v, d);
        assert forall|i: int| 0 <= i < d.len() implies #[trigger] d[i] == cs[i] by {}
        if violated_of(v, cs).len() == 0 {
            assert forall|i: int| 0 <= i < cs.len() implies spec_satisfies(v, (#[trigger] cs[i]).op, cs[i].version) by {
                if i < d.len() {
                    assert(d[i] == cs[i]);
                }
            }
        } else if forall|i: int| 0 <= i < cs.len() ==> spec_satisfies(v, (#[trigger] cs[i]).op, cs[i].version) {
            assert(cs[cs.len() - 1] == cs.last());
            assert forall|i: int| 0 <= i < d.len() implies spec_satisfies(v, (#[trigger] d[i]).op, d[i].version) by {
                assert(d[i] == cs[i]);
            }
        }
    }
}

impl DepSpec {
    /// Every constraint holds of `v`.
    pub open spec fn admits(&self, v: VersionSpec) -> bool {
        forall|i: int| 0 <= i < self.constraints@.len()
            ==> spec_satisfies(v, (#[trigger] self.constraints@[i]).op, self.constraints@[i].version)
    }

    /// The indices of the constraints that `version` violates.
    pub fn violated(&self, version: &VersionSpec) -> (r: Vec<usize>)
        ensures
            r@ == violated_of(*version, self.constraints@),
            r@.len() == 0 <==> self.admits(*version),
    {
        let mut r: Vec<usize> = Vec::new();
        let mut i: usize = 0;
        while i < self.constraints.len()
            invariant
                i <= self.constraints@.len(),
                r@ == violated_of(*version, self.constraints@.subrange(0, i as int)),
            decreases self.constraints@.len() - i,
        {
            let ghost now = self.constraints@.subrange(0, i + 1);
            proof {
                assert(now.drop_last() =~= self.constraints@.subrange(0, i as int));
                assert(now.last() == self.constraints@[i as int]);
            }
            let c = &self.constraints[i];
            if !version.satisfies(c.op, &c.version) {
                r.push(i);
            }
            i += 1;
        }
        assert(self.constraints@.subrange(0, self.constraints@.len() as int) =~= self.constraints@);
        proof { lemma_violated_empty(*version, self.constraints@); }
        r
    }

    /// Whether `package` is what this requirement asks for: the names agree
    /// once normalized, and the version meets every constraint.
    pub fn matches(&self, package: &Package) -> (r: bool)
        ensures
            r == (normalized(self.name@) == normalized(package.name@) && self.admits(package.version)),
    {
        let a = normalize(self.name.as_str());
        let b = normalize(package.name.as_str());
        if a != b {
            return false;
        }
        let v = self.violated(&package.version);
        v.len() == 0
    }
}

} // verus!
