//! Validation of the manifest fields that end up in pool paths and in signed
//! metadata.

use vstd::prelude::*;
use crate::text::{chars_of, first_match, is_digit, lemma_first_match};

verus! {

/// Why a field was refused.
#[derive(Debug, Clone, Copy, PartialEq, Eq, Structural)]
pub enum FieldProblem {
    /// The value is empty.
    Empty,
    /// The value starts with `.` (this covers `.` and `..`).
    LeadingDot,
    /// The value contains `..`.
    DoubleDot,
    /// The value holds a character outside `A-Z a-z 0-9 . _ + ~ - :`; the
    /// first such character.
    InvalidChar(char),
}

/// A refused field: which one, its value, and why.
#[derive(Debug)]
pub struct FieldError {
    pub kind: String,
    pub value: String,
    pub problem: FieldProblem,
}

/// The characters a path-bound field may hold.
pub open spec fn allowed_char(c: char) -> bool {
    ||| ('A' <= c && c <= 'Z')
    ||| ('a' <= c && c <= 'z')
    ||| is_digit(c)
    ||| c == '.'
    ||| c == '_'
    ||| c == '+'
    ||| c == '~'
    ||| c == '-'
    ||| c == ':'
}

pub open spec fn not_allowed() -> spec_fn(char) -> bool {
    |c: char| !allowed_char(c)
}

pub open spec fn has_double_dot(v: Seq<char>) -> bool {
    exists|i: int| 0 <= i && i + 1 < v.len() && #[trigger] v[i] == '.' && v[i + 1] == '.'
}

/// The first rule that `v` breaks, in the order the rules are checked; `None`
/// when `v` is acceptable.
pub open spec fn field_problem(v: Seq<char>) -> Option<FieldProblem> {
    if v.len() == 0 {
        Some(FieldProblem::Empty)
    } else if v[0] == '.' {
        Some(FieldProblem::LeadingDot)
    } else if has_double_dot(v) {
        Some(FieldProblem::DoubleDot)
    } else {
        match first_match(v, not_allowed()) {
            Some(i) => Some(FieldProblem::InvalidChar(v[i])),
            None => None,
        }
    }
}

fn is_allowed_char(c: char) -> (b: bool)
    ensures
        b == allowed_char(c),
{
    ('A' <= c && c <= 'Z') || ('a' <= c && c <= 'z') || ('0' <= c && c <= '9') || c == '.'
        || c == '_' || c == '+' || c == '~' || c == '-' || c == ':'
}

/// The first character of `v` that satisfies `allowed_char` negatively.
pub fn first_disallowed(v: &Vec<char>) -> (r: Option<usize>)
    ensures
        match r {
            Some(i) => i < v@.len() && first_match(v@, not_allowed()) == Some(i as int),
            None => first_match(v@, not_allowed()) is None,
        },
{
    let mut i: usize = 0;
    while i < v.len()
        invariant
            i <= v.len(),
            forall|j: int| 0 <= j < i ==> allowed_char(#[trigger] v@[j]),
        decreases v.len() - i,
    {
        if !is_allowed_char(v[i]) {
            proof {
                lemma_first_match(v@, not_allowed());
                let f = first_match(v@, not_allowed());
                if f is Some {
                    let k = f->0;
                    assert(!allowed_char(v@[k]));
                }
            }
            return Some(i);
        }
        i = i + 1;
    }
    proof {
        lemma_first_match(v@, not_allowed());
        let f = first_match(v@, not_allowed());
        if f is Some {
            let k = f->0;
            assert(!allowed_char(v@[k]));
        }
    }
    None
}

/// Whether `v` holds two consecutive dots.
pub fn contains_double_dot(v: &Vec<char>) -> (b: bool)
    ensures
        b == has_double_dot(v@),
{
    let mut i: usize = 0;
    while i < v.len() && v.len() - i >= 2
        invariant
            i <= v.len(),
            forall|j: int| 0 <= j < i && j + 1 < v@.len() ==> !(#[trigger] v@[j] == '.' && v@[j + 1] == '.'),
        decreases v.len() - i,
    {
        if v[i] == '.' && v[i + 1] == '.' {
            return true;
        }
        i = i + 1;
    }
    proof {
        if has_double_dot(v@) {
            let k = choose|k: int| 0 <= k && k + 1 < v@.len() && #[trigger] v@[k] == '.' && v@[k + 1] == '.';
            assert(k < i);
        }
    }
    false
}

/// `field_problem`, computed.
pub fn check_field(v: &Vec<char>) -> (r: Option<FieldProblem>)
    ensures
        r == field_problem(v@),
{
    if v.len() == 0 {
        Some(FieldProblem::Empty)
    } else if v[0] == '.' {
        Some(FieldProblem::LeadingDot)
    } else if contains_double_dot(v) {
        Some(FieldProblem::DoubleDot)
    } else {
        match first_disallowed(v) {
            Some(i) => Some(FieldProblem::InvalidChar(v[i])),
            None => None,
        }
    }
}

/// Refuses a field that will be interpolated into a pool path or into signed
/// metadata: it must be non-empty, must not start with `.`, must not contain
/// `..`, and may hold only `A-Z a-z 0-9 . _ + ~ - :`.
pub fn validate_field(kind: &str, value: &str) -> (r: Result<(), FieldError>)
    ensures
        r is Ok <==> field_problem(value@) is None,
        r matches Err(e) ==> {
            &&& field_problem(value@) == Some(e.problem)
            &&& e.kind@ == kind@
            &&& e.value@ == value@
        },
{
    let v = chars_of(value);
    match check_field(&v) {
        None => Ok(()),
        Some(problem) => Err(FieldError { kind: String::from_str(kind), value: String::from_str(value), problem }),
    }
}

} // verus!
