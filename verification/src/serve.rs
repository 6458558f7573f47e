//! The decisions of the development file server: which file a request names,
//! and how it is answered.

use vstd::prelude::*;
use crate::text::{chars_of, string_of, copy_range, first_match, lemma_first_match};

verus! {

pub open spec fn is_question_mark() -> spec_fn(char) -> bool {
    |c: char| c == '?'
}

/// `s` with every leading `/` removed (`trim_start_matches('/')`).
pub open spec fn strip_slashes(s: Seq<char>) -> Seq<char>
    decreases s.len(),
{
    if s.len() > 0 && s[0] == '/' {
        strip_slashes(s.drop_first())
    } else {
        s
    }
}

/// The repository-relative path a request URL names: the part before the
/// first `?`, without leading `/`.
pub open spec fn request_path_spec(url: Seq<char>) -> Seq<char> {
    let before = match first_match(url, is_question_mark()) {
        Some(i) => url.take(i),
        None => url,
    };
    strip_slashes(before)
}

/// The repository-relative path a request URL names.
pub fn request_path(url: &str) -> (r: String)
    ensures
        r@ == request_path_spec(url@),
{
    let v = chars_of(url);
    let mut end: usize = 0;
    while end < v.len() && v[end] != '?'
        invariant
            end <= v@.len(),
            forall|j: int| 0 <= j < end ==> v@[j] != '?',
        decreases v.len() - end,
    {
        end = end + 1;
    }
    proof {
        lemma_first_match(v@, is_question_mark());
        let f = first_match(v@, is_question_mark());
        if f is Some {
            let q = f->0;
            assert(v@[q] == '?');
            if end < v@.len() {
                assert(v@[end as int] == '?');
            }
            assert(q == end);
            assert(v@.take(q) == v@.subrange(0, end as int));
        } else {
            assert(v@ == v@.subrange(0, v@.len() as int));
        }
    }
    let mut start: usize = 0;
    assert(v@.subrange(0, end as int).skip(0) == v@.subrange(0, end as int));
    while start < end && v[start] == '/'
        invariant
            start <= end <= v@.len(),
            strip_slashes(v@.subrange(0, end as int)) == strip_slashes(v@.subrange(start as int, end as int)),
        decreases end - start,
    {
        assert(v@.subrange(start as int, end as int).drop_first() == v@.subrange(start + 1, end as int));
        start = start + 1;
    }
    string_of(&copy_range(&v, start, end))
}

/// How a request is answered.
#[derive(Debug, Clone, Copy, PartialEq, Eq, Structural)]
pub enum Answer {
    /// Send the file.
    Serve,
    /// 403: the path resolves outside the repository or into `.chancery`.
    Forbidden,
    /// 404: nothing there, or not a file.
    NotFound,
}

/// Where a request's path resolved to, with symlinks followed.
#[derive(Debug, Clone, Copy, PartialEq, Eq, Structural)]
pub struct Resolution {
    /// Inside the repository root.
    pub inside_root: bool,
    /// Inside the control directory `.chancery`.
    pub inside_control: bool,
    /// A regular file.
    pub is_file: bool,
}

/// The answer to a request: a file inside the root and outside `.chancery` is
/// served; a path that resolves outside the root or into `.chancery` is
/// forbidden; anything else (unresolvable, or not a file) is not found.
pub open spec fn answer_spec(r: Option<Resolution>) -> Answer {
    match r {
        Some(p) => if p.inside_root && !p.inside_control && p.is_file {
            Answer::Serve
        } else if !p.inside_root || p.inside_control {
            Answer::Forbidden
        } else {
            Answer::NotFound
        },
        None => Answer::NotFound,
    }
}

/// The answer to a request whose path resolved as `r` (`None`: it did not
/// resolve).
pub fn answer(r: Option<Resolution>) -> (a: Answer)
    ensures
        a == answer_spec(r),
{
    match r {
        Some(p) => {
            if p.inside_root && !p.inside_control && p.is_file {
                Answer::Serve
            } else if !p.inside_root || p.inside_control {
                Answer::Forbidden
            } else {
                Answer::NotFound
            }
        },
        None => Answer::NotFound,
    }
}

/// A file is served only when it resolves inside the repository and outside
/// the control directory.
pub proof fn law_never_serves_outside(r: Option<Resolution>)
    ensures
        answer_spec(r) == Answer::Serve ==> (r matches Some(p) && p.inside_root && !p.inside_control),
{
}

} // verus!
