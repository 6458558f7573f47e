//! Where a repository keeps its files, as paths built from the repository
//! directory.

use vstd::prelude::*;
use crate::text::{chars_of, string_of, push_str};

verus! {

/// `base` joined with the relative, non-empty `part`, as `Path::join` does on
/// Unix: a separator is added unless `base` is empty or already ends with one.
pub open spec fn join_path(base: Seq<char>, part: Seq<char>) -> Seq<char> {
    if base.len() == 0 {
        part
    } else if base.last() == '/' {
        base + part
    } else {
        base + seq!['/'] + part
    }
}

/// `base` joined with the relative, non-empty `part`.
pub fn join(base: &str, part: &str) -> (r: String)
    ensures
        r@ == join_path(base@, part@),
{
    let mut out = chars_of(base);
    if out.len() > 0 && out[out.len() - 1] != '/' {
        out.push('/');
    }
    push_str(&mut out, part);
    string_of(&out)
}

/// The private control directory, `.chancery`, never served.
pub fn chancery_dir(repo: &str) -> (r: String)
    ensures
        r@ == join_path(repo@, ".chancery"@),
{
    join(repo, ".chancery")
}

/// The configuration file.
pub fn config_path(repo: &str) -> (r: String)
    ensures
        r@ == join_path(join_path(repo@, ".chancery"@), "config.toml"@),
{
    join(chancery_dir(repo).as_str(), "config.toml")
}

/// The package index.
pub fn db_path(repo: &str) -> (r: String)
    ensures
        r@ == join_path(join_path(repo@, ".chancery"@), "db.json"@),
{
    join(chancery_dir(repo).as_str(), "db.json")
}

/// The private signing key.
pub fn key_path(repo: &str) -> (r: String)
    ensures
        r@ == join_path(join_path(repo@, ".chancery"@), "signing.key"@),
{
    join(chancery_dir(repo).as_str(), "signing.key")
}

/// The public trust anchor.
pub fn pubkey_path(repo: &str) -> (r: String)
    ensures
        r@ == join_path(repo@, "key.pub"@),
{
    join(repo, "key.pub")
}

} // verus!
