//! The constraint language: statements `p = &q`, `p = q`, `p = *q` and
//! `*p = q`, each optionally followed by `;`, with whitespace between tokens.
use crate::constraint::{Constraint, ConstraintKind};
use vstd::prelude::*;

verus! {

/// Whether a character has the Unicode `Alphabetic` property.
pub uninterp spec fn alphabetic(c: char) -> bool;

/// Whether a character is alphabetic or numeric in Unicode's sense.
pub uninterp spec fn alphanumeric(c: char) -> bool;

/// Relies on `char::is_alphabetic`.
#[verifier::external_body]
fn is_alphabetic(c: char) -> (r: bool)
    ensures
        r == alphabetic(c),
{
    c.is_alphabetic()
}

/// Relies on `char::is_alphanumeric`, which holds of every alphabetic character.
#[verifier::external_body]
fn is_alphanumeric(c: char) -> (r: bool)
    ensures
        r == alphanumeric(c),
        alphabetic(c) ==> r,
{
    c.is_alphanumeric()
}

/// Relies on `str::chars` collected into a `Vec`: the characters of `s`.
#[verifier::external_body]
fn chars_of(s: &str) -> (r: Vec<char>)
    ensures
        r@ == s@,
{
    s.chars().collect()
}

/// Relies on collecting characters into a `String`: the text of `s[a..b]`.
#[verifier::external_body]
fn string_of(s: &Vec<char>, a: usize, b: usize) -> (r: String)
    requires
        a <= b <= s@.len(),
    ensures
        r@ == s@.subrange(a as int, b as int),
{
    s[a..b].iter().collect()
}

/// The input does not follow the grammar.
#[derive(Debug, PartialEq, Eq, Structural)]
pub struct ParseError;

/// Whitespace between tokens: space, tab, carriage return, line feed.
pub open spec fn is_space(c: char) -> bool {
    c == ' ' || c == '\t' || c == '\r' || c == '\n'
}

/// The first position at or after `i` that is not whitespace.
pub open spec fn skip_space(s: Seq<char>, i: int) -> int
    decreases s.len() - i,
{
    if 0 <= i < s.len() && is_space(s[i]) {
        skip_space(s, i + 1)
    } else {
        i
    }
}

/// The end of the run of alphanumeric characters from `i`.
pub open spec fn alnum_end(s: Seq<char>, i: int) -> int
    decreases s.len() - i,
{
    if 0 <= i < s.len() && alphanumeric(s[i]) {
        alnum_end(s, i + 1)
    } else {
        i
    }
}

/// The end of the identifier that starts at `i`: an alphabetic character and
/// then as many alphanumeric ones as follow. It is `i` itself when no
/// identifier starts there.
pub open spec fn ident_end(s: Seq<char>, i: int) -> int {
    if 0 <= i < s.len() && alphabetic(s[i]) {
        alnum_end(s, i + 1)
    } else {
        i
    }
}

/// The statement that starts at `i`, after optional whitespace: its kind, its
/// left and right identifiers, and the position after its last identifier.
pub open spec fn statement(s: Seq<char>, i: int) -> Option<(ConstraintKind, Seq<char>, Seq<char>, int)> {
    let a = skip_space(s, i);
    if a < s.len() && s[a] == '*' {
        let l0 = skip_space(s, a + 1);
        let l1 = ident_end(s, l0);
        let e = skip_space(s, l1);
        if l1 > l0 && e < s.len() && s[e] == '=' {
            let r0 = skip_space(s, e + 1);
            let r1 = ident_end(s, r0);
            if r1 > r0 {
                Some((ConstraintKind::DerefLeft, s.subrange(l0, l1), s.subrange(r0, r1), r1))
            } else {
                None
            }
        } else {
            None
        }
    } else {
        let l1 = ident_end(s, a);
        let e = skip_space(s, l1);
        if l1 > a && e < s.len() && s[e] == '=' {
            let b = skip_space(s, e + 1);
            if b < s.len() && (s[b] == '&' || s[b] == '*') {
                let r0 = skip_space(s, b + 1);
                let r1 = ident_end(s, r0);
                if r1 > r0 {
                    let kind = if s[b] == '&' {
                        ConstraintKind::Addr
                    } else {
                        ConstraintKind::DerefRight
                    };
                    Some((kind, s.subrange(a, l1), s.subrange(r0, r1), r1))
                } else {
                    None
                }
            } else {
                let r1 = ident_end(s, b);
                if r1 > b {
                    Some((ConstraintKind::Equal, s.subrange(a, l1), s.subrange(b, r1), r1))
                } else {
                    None
                }
            }
        } else {
            None
        }
    }
}

/// Past an optional `;` (after optional whitespace) at `i`.
pub open spec fn after_separator(s: Seq<char>, i: int) -> int {
    let t = skip_space(s, i);
    if t < s.len() && s[t] == ';' {
        t + 1
    } else {
        i
    }
}

/// The statements from `i` to the end of `s`, followed by nothing but
/// whitespace; `None` when the text there is not such a list.
pub open spec fn statements_from(s: Seq<char>, i: int) -> Option<Seq<(ConstraintKind, Seq<char>, Seq<char>)>>
    decreases s.len() - i,
{
    match statement(s, i) {
        Some(st) => {
            let j = after_separator(s, st.3);
            if i < j <= s.len() {
                match statements_from(s, j) {
                    Some(rest) => Some(seq![(st.0, st.1, st.2)] + rest),
                    None => None,
                }
            } else {
                None
            }
        },
        None => if skip_space(s, i) == s.len() {
            Some(Seq::empty())
        } else {
            None
        },
    }
}

/// The statements of a whole text.
pub open spec fn statements(s: Seq<char>) -> Option<Seq<(ConstraintKind, Seq<char>, Seq<char>)>> {
    statements_from(s, 0)
}

/// A constraint carries the statement `st`.
pub open spec fn carries(c: Constraint, st: (ConstraintKind, Seq<char>, Seq<char>)) -> bool {
    c.kind == st.0 && c.left@ == st.1 && c.right@ == st.2
}

proof fn lemma_skip_space_bounds(s: Seq<char>, i: int)
    requires
        0 <= i <= s.len(),
    ensures
        i <= skip_space(s, i) <= s.len(),
    decreases s.len() - i,
{
    if i < s.len() && is_space(s[i]) {
        lemma_skip_space_bounds(s, i + 1);
    }
}

proof fn lemma_alnum_end_bounds(s: Seq<char>, i: int)
    requires
        0 <= i <= s.len(),
    ensures
        i <= alnum_end(s, i) <= s.len(),
    decreases s.len() - i,
{
    if i < s.len() && alphanumeric(s[i]) {
        lemma_alnum_end_bounds(s, i + 1);
    }
}

/// The first position at or after `i` that is not whitespace.
fn skip_ws(s: &Vec<char>, i: usize) -> (r: usize)
    requires
        i <= s@.len(),
    ensures
        r == skip_space(s@, i as int),
        i <= r <= s@.len(),
{
    let mut j = i;
    while j < s.len() && (s[j] == ' ' || s[j] == '\t' || s[j] == '\r' || s[j] == '\n')
        invariant
            i <= j <= s@.len(),
            skip_space(s@, i as int) == skip_space(s@, j as int),
        decreases s@.len() - j,
    {
        j += 1;
    }
    j
}

/// The end of the identifier that starts at `i`; `i` when none starts there.
pub fn parse_identifier(s: &Vec<char>, i: usize) -> (r: usize)
    requires
        i <= s@.len(),
    ensures
        r == ident_end(s@, i as int),
        i <= r <= s@.len(),
{
    if i < s.len() && is_alphabetic(s[i]) {
        let mut j = i + 1;
        while j < s.len() && is_alphanumeric(s[j])
            invariant
                i < j <= s@.len(),
                alnum_end(s@, i + 1) == alnum_end(s@, j as int),
            decreases s@.len() - j,
        {
            j += 1;
        }
        j
    } else {
        i
    }
}


/// The statement that starts at `i`, with the position after it and its
/// optional `;`; `None` when no statement starts there.
pub fn parse_constraint(s: &Vec<char>, i: usize) -> (r: Option<(Constraint, usize)>)
    requires
        i <= s@.len(),
    ensures
        match statement(s@, i as int) {
            None => r is None,
            Some(st) => match r {
                Some((c, j)) => carries(c, (st.0, st.1, st.2)) && j == after_separator(s@, st.3),
                None => false,
            },
        },
{
    let a = skip_ws(s, i);
    let mut kind = ConstraintKind::Equal;
    let l0: usize;
    let l1: usize;
    let r0: usize;
    let r1: usize;
    if a < s.len() && s[a] == '*' {
        l0 = skip_ws(s, a + 1);
        l1 = parse_identifier(s, l0);
        let e = skip_ws(s, l1);
        if !(l1 > l0 && e < s.len() && s[e] == '=') {
            return None;
        }
        r0 = skip_ws(s, e + 1);
        r1 = parse_identifier(s, r0);
        if r1 <= r0 {
            return None;
        }
        kind = ConstraintKind::DerefLeft;
    } else {
        l0 = a;
        l1 = parse_identifier(s, a);
        let e = skip_ws(s, l1);
        if !(l1 > a && e < s.len() && s[e] == '=') {
            return None;
        }
        let b = skip_ws(s, e + 1);
        if b < s.len() && (s[b] == '&' || s[b] == '*') {
            r0 = skip_ws(s, b + 1);
            r1 = parse_identifier(s, r0);
            if r1 <= r0 {
                return None;
            }
            if s[b] == '&' {
                kind = ConstraintKind::Addr;
            } else {
                kind = ConstraintKind::DerefRight;
            }
        } else {
            r0 = b;
            r1 = parse_identifier(s, b);
            if r1 <= b {
                return None;
            }
        }
    }
    let c = Constraint { left: string_of(s, l0, l1), right: string_of(s, r0, r1), kind };
    let t = skip_ws(s, r1);
    let j = if t < s.len() && s[t] == ';' {
        t + 1
    } else {
        r1
    };
    Some((c, j))
}

/// The constraints of a whole text, in order. The text must be a list of
/// statements and nothing else but whitespace.
pub fn parse_constraint_list(input: &str) -> (r: Result<Vec<Constraint>, ParseError>)
    ensures
        match statements(input@) {
            None => r is Err,
            Some(sts) => match r {
                Ok(cs) => cs@.len() == sts.len() && forall|k: int| 0 <= k < sts.len() ==> #[trigger] carries(cs@[k], sts[k]),
                Err(_) => false,
            },
        },
{
    let s = chars_of(input);
    let mut out: Vec<Constraint> = Vec::new();
    let mut i: usize = 0;
    while i <= s.len()
        invariant
            s@ == input@,
            i <= s@.len(),
            statements(s@) == match statements_from(s@, i as int) {
                Some(rest) => Some(out@.map_values(|c: Constraint| (c.kind, c.left@, c.right@)) + rest),
                None => None::<Seq<(ConstraintKind, Seq<char>, Seq<char>)>>,
            },
        decreases s@.len() + 1 - i,
    {
        match parse_constraint(&s, i) {
            Some((c, j)) => {
                proof {
                    let st = statement(s@, i as int)->0;
                    lemma_statement_end(s@, i as int);
                    assert(out@.push(c).map_values(|c: Constraint| (c.kind, c.left@, c.right@)) =~= out@.map_values(
                        |c: Constraint| (c.kind, c.left@, c.right@),
                    ).push((st.0, st.1, st.2)));
                    if i < j && j <= s@.len() {
                        match statements_from(s@, j as int) {
                            Some(rest) => {
                                assert(out@.push(c).map_values(|c: Constraint| (c.kind, c.left@, c.right@)) + rest
                                    =~= out@.map_values(|c: Constraint| (c.kind, c.left@, c.right@)) + (seq![(st.0, st.1, st.2)] + rest));
                            },
                            None => {},
                        }
                    }
                }
                out.push(c);
                i = j;
            },
            None => {
                let t = skip_ws(&s, i);
                if t == s.len() {
                    proof {
                        assert(out@.map_values(|c: Constraint| (c.kind, c.left@, c.right@)) + Seq::empty()
                            =~= out@.map_values(|c: Constraint| (c.kind, c.left@, c.right@)));
                        let sts = statements(s@)->0;
                        assert forall|k: int| 0 <= k < sts.len() implies #[trigger] carries(out@[k], sts[k]) by {
                            assert(out@.map_values(|c: Constraint| (c.kind, c.left@, c.right@))[k] == sts[k]);
                        }
                    }
                    return Ok(out);
                } else {
                    return Err(ParseError);
                }
            },
        }
    }
    Err(ParseError)
}

/// A statement ends after where it starts, and its separator after that.
proof fn lemma_statement_end(s: Seq<char>, i: int)
    requires
        0 <= i <= s.len(),
    ensures
        match statement(s, i) {
            Some(st) => i < after_separator(s, st.3) <= s.len(),
            None => true,
        },
{
    let a = skip_space(s, i);
    lemma_skip_space_bounds(s, i);
    if statement(s, i) is Some {
        let st = statement(s, i)->0;
        let end = st.3;
        assert(i < end <= s.len()) by {
            if a < s.len() && s[a] == '*' {
                let l0 = skip_space(s, a + 1);
                lemma_skip_space_bounds(s, a + 1);
                let l1 = ident_end(s, l0);
                if 0 <= l0 < s.len() && alphabetic(s[l0]) {
                    lemma_alnum_end_bounds(s, l0 + 1);
                }
                let e = skip_space(s, l1);
                lemma_skip_space_bounds(s, l1);
                let r0 = skip_space(s, e + 1);
                lemma_skip_space_bounds(s, e + 1);
                if 0 <= r0 < s.len() && alphabetic(s[r0]) {
                    lemma_alnum_end_bounds(s, r0 + 1);
                }
            } else {
                let l1 = ident_end(s, a);
                if 0 <= a < s.len() && alphabetic(s[a]) {
                    lemma_alnum_end_bounds(s, a + 1);
                }
                let e = skip_space(s, l1);
                lemma_skip_space_bounds(s, l1);
                let b = skip_space(s, e + 1);
                lemma_skip_space_bounds(s, e + 1);
                if b < s.len() && (s[b] == '&' || s[b] == '*') {
                    let r0 = skip_space(s, b + 1);
                    lemma_skip_space_bounds(s, b + 1);
                    if 0 <= r0 < s.len() && alphabetic(s[r0]) {
                        lemma_alnum_end_bounds(s, r0 + 1);
                    }
                } else {
                    if 0 <= b < s.len() && alphabetic(s[b]) {
                        lemma_alnum_end_bounds(s, b + 1);
                    }
                }
            }
        }
        lemma_skip_space_bounds(s, end);
    }
}

} // verus!
