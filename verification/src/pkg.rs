//! The manifest of a `.hpkg` package: finding it in the archive, parsing its
//! `key=value` lines, and refusing values that could escape the pool or
//! distort the signed metadata.

use vstd::prelude::*;
use std::io::Read;
use crate::text::{split_on, chars_of, string_of, copy_range, range_is, trim, trim_end, trim_bounds, first_match, lemma_first_match, is_control};
use crate::field::{FieldError, field_problem, check_field};

verus! {

/// Cap on the manifest member size, in bytes.
pub const MAX_MANIFEST_BYTES: usize = 65536;

/// A package's manifest.
#[derive(Debug, Clone)]
pub struct Manifest {
    pub id: String,
    pub name: String,
    pub version: String,
    pub exec_path: String,
    pub caps: String,
    pub depends: String,
    pub arch: String,
}

/// Why a package's manifest was refused.
#[derive(Debug)]
pub enum ManifestError {
    /// One of `id`, `name`, `version`, `exec` is missing or empty.
    MissingField,
    /// `id`, `version` or `arch` breaks the path-field rules.
    InvalidField(FieldError),
    /// A field holds a control character (the first one).
    ControlChar { kind: String, ch: char },
    /// The `manifest` member is larger than `MAX_MANIFEST_BYTES`.
    TooLarge,
    /// The `manifest` member is not UTF-8.
    NotUtf8,
    /// The archive holds no `manifest` member.
    NoManifest,
    /// The archive could not be read before a `manifest` member was found.
    Archive,
}

// ── the lines of a manifest ───────────────────────────────────────────────

/// The text split at each `\n`. A final empty piece may remain; it is a blank
/// line and changes nothing.
pub open spec fn split_lines(s: Seq<char>) -> Seq<Seq<char>> {
    split_on(s, '\n')
}

pub open spec fn is_eq_sign() -> spec_fn(char) -> bool {
    |c: char| c == '='
}

/// The index of a recognised key: `id`, `name`, `version`, `exec`, `caps`,
/// `depends`, `arch`, in that order.
pub open spec fn key_index(k: Seq<char>) -> Option<int> {
    if k == seq!['i', 'd'] {
        Some(0)
    } else if k == seq!['n', 'a', 'm', 'e'] {
        Some(1)
    } else if k == seq!['v', 'e', 'r', 's', 'i', 'o', 'n'] {
        Some(2)
    } else if k == seq!['e', 'x', 'e', 'c'] {
        Some(3)
    } else if k == seq!['c', 'a', 'p', 's'] {
        Some(4)
    } else if k == seq!['d', 'e', 'p', 'e', 'n', 'd', 's'] {
        Some(5)
    } else if k == seq!['a', 'r', 'c', 'h'] {
        Some(6)
    } else {
        None
    }
}

/// What one line assigns: after trimming its end, a line that is blank,
/// starts with `#`, has no `=`, or whose trimmed key is not recognised assigns
/// nothing; otherwise the key gets the trimmed text after the first `=`.
pub open spec fn line_effect(line: Seq<char>) -> Option<(int, Seq<char>)> {
    let l = trim_end(line);
    if l.len() == 0 || l[0] == '#' {
        None
    } else {
        match first_match(l, is_eq_sign()) {
            None => None,
            Some(p) => match key_index(trim(l.take(p))) {
                Some(k) => Some((k, trim(l.skip(p + 1)))),
                None => None,
            },
        }
    }
}

/// The field values before any line is read: all empty but `arch`, which is
/// `x86_64`.
pub open spec fn default_fields() -> Seq<Seq<char>> {
    seq![
        Seq::empty(),
        Seq::empty(),
        Seq::empty(),
        Seq::empty(),
        Seq::empty(),
        Seq::empty(),
        seq!['x', '8', '6', '_', '6', '4'],
    ]
}

/// The field values after reading `lines` in order: a later line overrides
/// an earlier one.
pub open spec fn scan_lines(lines: Seq<Seq<char>>) -> Seq<Seq<char>>
    decreases lines.len(),
{
    if lines.len() == 0 {
        default_fields()
    } else {
        let f = scan_lines(lines.drop_last());
        match line_effect(lines.last()) {
            Some((k, v)) => f.update(k, v),
            None => f,
        }
    }
}

/// The seven field values a manifest text assigns, indexed as in `key_index`.
pub open spec fn manifest_fields(text: Seq<char>) -> Seq<Seq<char>> {
    scan_lines(split_lines(text))
}

pub proof fn lemma_scan_len(lines: Seq<Seq<char>>)
    ensures
        scan_lines(lines).len() == 7,
    decreases lines.len(),
{
    if lines.len() > 0 {
        lemma_scan_len(lines.drop_last());
    }
}

pub open spec fn control_char() -> spec_fn(char) -> bool {
    |c: char| is_control(c)
}

/// The first control character of `v`, if any.
pub open spec fn first_control(v: Seq<char>) -> Option<char> {
    match first_match(v, control_char()) {
        Some(i) => Some(v[i]),
        None => None,
    }
}

/// Whether `e` is the refusal that `reject_control` gives for `kind`, `v`.
pub open spec fn is_control_error(e: ManifestError, kind: Seq<char>, v: Seq<char>) -> bool {
    e matches ManifestError::ControlChar { kind: k, ch } && k@ == kind && first_control(v) == Some(ch)
}

/// Whether `e` is the refusal that a path-field check gives for `kind`, `v`.
pub open spec fn is_field_error(e: ManifestError, kind: Seq<char>, v: Seq<char>) -> bool {
    e matches ManifestError::InvalidField(fe) && fe.kind@ == kind && fe.value@ == v && field_problem(v)
        == Some(fe.problem)
}

/// The required fields are present.
pub open spec fn required_present(f: Seq<Seq<char>>) -> bool {
    f[0].len() > 0 && f[1].len() > 0 && f[2].len() > 0 && f[3].len() > 0
}

/// The field values are accepted.
pub open spec fn fields_accepted(f: Seq<Seq<char>>) -> bool {
    &&& required_present(f)
    &&& field_problem(f[0]) is None
    &&& field_problem(f[2]) is None
    &&& field_problem(f[6]) is None
    &&& first_control(f[1]) is None
    &&& first_control(f[3]) is None
    &&& first_control(f[4]) is None
    &&& first_control(f[5]) is None
}

/// The refusal for field values that are not accepted: the checks run in the
/// order required fields; `id`, `version`, `arch`; then control characters in
/// `name`, `exec`, `caps`, `depends`.
pub open spec fn is_refusal(f: Seq<Seq<char>>, e: ManifestError) -> bool {
    if !required_present(f) {
        e is MissingField
    } else if field_problem(f[0]) is Some {
        is_field_error(e, "id"@, f[0])
    } else if field_problem(f[2]) is Some {
        is_field_error(e, "version"@, f[2])
    } else if field_problem(f[6]) is Some {
        is_field_error(e, "arch"@, f[6])
    } else if first_control(f[1]) is Some {
        is_control_error(e, "name"@, f[1])
    } else if first_control(f[3]) is Some {
        is_control_error(e, "exec"@, f[3])
    } else if first_control(f[4]) is Some {
        is_control_error(e, "caps"@, f[4])
    } else {
        is_control_error(e, "depends"@, f[5])
    }
}

/// Whether `m` holds exactly the field values `f`.
pub open spec fn manifest_holds(m: Manifest, f: Seq<Seq<char>>) -> bool {
    &&& m.id@ == f[0]
    &&& m.name@ == f[1]
    &&& m.version@ == f[2]
    &&& m.exec_path@ == f[3]
    &&& m.caps@ == f[4]
    &&& m.depends@ == f[5]
    &&& m.arch@ == f[6]
}

// ── executable parts ─────────────────────────────────────────────────────

fn first_control_index(v: &Vec<char>) -> (r: Option<usize>)
    ensures
        match r {
            Some(i) => i < v@.len() && first_match(v@, control_char()) == Some(i as int),
            None => first_match(v@, control_char()) is None,
        },
{
    let mut i: usize = 0;
    while i < v.len()
        invariant
            i <= v.len(),
            forall|j: int| 0 <= j < i ==> !is_control(#[trigger] v@[j]),
        decreases v.len() - i,
    {
        let c = v[i];
        if c <= '\u{1f}' || ('\u{7f}' <= c && c <= '\u{9f}') {
            proof {
                lemma_first_match(v@, control_char());
                let f = first_match(v@, control_char());
                if f is Some {
                    let k = f->0;
                    assert(is_control(v@[k]));
                }
            }
            return Some(i);
        }
        i = i + 1;
    }
    proof {
        lemma_first_match(v@, control_char());
        let f = first_match(v@, control_char());
        if f is Some {
            let k = f->0;
            assert(is_control(v@[k]));
        }
    }
    None
}

fn control_check(kind: &str, v: &Vec<char>) -> (r: Result<(), ManifestError>)
    ensures
        r is Ok <==> first_control(v@) is None,
        r matches Err(e) ==> is_control_error(e, kind@, v@),
{
    match first_control_index(v) {
        Some(i) => Err(ManifestError::ControlChar { kind: String::from_str(kind), ch: v[i] }),
        None => Ok(()),
    }
}

/// Refuses a value that holds a control character, naming the first one.
pub fn reject_control(kind: &str, value: &str) -> (r: Result<(), ManifestError>)
    ensures
        r is Ok <==> first_control(value@) is None,
        r matches Err(e) ==> is_control_error(e, kind@, value@),
{
    let v = chars_of(value);
    control_check(kind, &v)
}

fn path_field_check(kind: &str, v: &Vec<char>) -> (r: Result<(), ManifestError>)
    ensures
        r is Ok <==> field_problem(v@) is None,
        r matches Err(e) ==> is_field_error(e, kind@, v@),
{
    match check_field(v) {
        None => Ok(()),
        Some(problem) => Err(
            ManifestError::InvalidField(
                FieldError { kind: String::from_str(kind), value: string_of(v), problem },
            ),
        ),
    }
}

fn recognised_key(v: &Vec<char>, lo: usize, hi: usize) -> (r: Option<usize>)
    requires
        lo <= hi <= v@.len(),
    ensures
        match r {
            Some(k) => key_index(v@.subrange(lo as int, hi as int)) == Some(k as int),
            None => key_index(v@.subrange(lo as int, hi as int)) is None,
        },
{
    let ghost k = v@.subrange(lo as int, hi as int);
    assert(['i', 'd']@ == seq!['i', 'd']);
    if range_is(v, lo, hi, &['i', 'd']) {
        return Some(0);
    }
    assert(['n', 'a', 'm', 'e']@ == seq!['n', 'a', 'm', 'e']);
    if range_is(v, lo, hi, &['n', 'a', 'm', 'e']) {
        return Some(1);
    }
    assert(['v', 'e', 'r', 's', 'i', 'o', 'n']@ == seq!['v', 'e', 'r', 's', 'i', 'o', 'n']);
    if range_is(v, lo, hi, &['v', 'e', 'r', 's', 'i', 'o', 'n']) {
        return Some(2);
    }
    assert(['e', 'x', 'e', 'c']@ == seq!['e', 'x', 'e', 'c']);
    if range_is(v, lo, hi, &['e', 'x', 'e', 'c']) {
        return Some(3);
    }
    assert(['c', 'a', 'p', 's']@ == seq!['c', 'a', 'p', 's']);
    if range_is(v, lo, hi, &['c', 'a', 'p', 's']) {
        return Some(4);
    }
    assert(['d', 'e', 'p', 'e', 'n', 'd', 's']@ == seq!['d', 'e', 'p', 'e', 'n', 'd', 's']);
    if range_is(v, lo, hi, &['d', 'e', 'p', 'e', 'n', 'd', 's']) {
        return Some(5);
    }
    assert(['a', 'r', 'c', 'h']@ == seq!['a', 'r', 'c', 'h']);
    if range_is(v, lo, hi, &['a', 'r', 'c', 'h']) {
        return Some(6);
    }
    None
}

/// What the line `v[lo..hi]` assigns (`line_effect`).
fn line_assignment(v: &Vec<char>, lo: usize, hi: usize) -> (r: Option<(usize, Vec<char>)>)
    requires
        lo <= hi <= v@.len(),
    ensures
        match r {
            Some((k, val)) => line_effect(v@.subrange(lo as int, hi as int)) == Some((k as int, val@)),
            None => line_effect(v@.subrange(lo as int, hi as int)) is None,
        },
{
    let ghost line = v@.subrange(lo as int, hi as int);
    let (_s, e) = trim_bounds(v, lo, hi);
    let ghost l = v@.subrange(lo as int, e as int);
    assert(l == trim_end(line));
    if e == lo || v[lo] == '#' {
        return None;
    }
    let mut p = lo;
    while p < e && v[p] != '='
        invariant
            lo <= p <= e <= v@.len(),
            l == v@.subrange(lo as int, e as int),
            forall|j: int| lo <= j < p ==> v@[j] != '=',
        decreases e - p,
    {
        p = p + 1;
    }
    proof {
        lemma_first_match(l, is_eq_sign());
    }
    if p == e {
        proof {
            let f = first_match(l, is_eq_sign());
            if f is Some {
                let q = f->0;
                assert(l[q] == v@[lo + q]);
            }
        }
        return None;
    }
    proof {
        let f = first_match(l, is_eq_sign());
        assert(l[p - lo] == '=');
        if f is Some {
            let q = f->0;
            assert(l[q] == v@[lo + q]);
            assert(q == p - lo);
        }
        assert(f == Some((p - lo) as int));
        assert(l.take(p - lo) == v@.subrange(lo as int, p as int));
        assert(l.skip(p - lo + 1) == v@.subrange(p + 1, e as int));
    }
    let (ks, ke) = trim_bounds(v, lo, p);
    match recognised_key(v, ks, ke) {
        None => None,
        Some(k) => {
            let (vs, ve) = trim_bounds(v, p + 1, e);
            Some((k, copy_range(v, vs, ve)))
        },
    }
}

/// Parses manifest text: `key=value` lines, blank lines and `#` comments
/// skipped, lines without `=` and unknown keys ignored, keys and values
/// trimmed, a later line overriding an earlier one. `arch` defaults to
/// `x86_64`. The result is refused when a required field is missing, when
/// `id`, `version` or `arch` breaks the path-field rules, or when `name`,
/// `exec`, `caps` or `depends` holds a control character.
pub fn parse(text: &str) -> (r: Result<Manifest, ManifestError>)
    ensures
        r is Ok <==> fields_accepted(manifest_fields(text@)),
        r matches Ok(m) ==> manifest_holds(m, manifest_fields(text@)),
        r matches Err(e) ==> is_refusal(manifest_fields(text@), e),
{
    let v = chars_of(text);
    let mut id: Vec<char> = Vec::new();
    let mut name: Vec<char> = Vec::new();
    let mut version: Vec<char> = Vec::new();
    let mut exec_path: Vec<char> = Vec::new();
    let mut caps: Vec<char> = Vec::new();
    let mut depends: Vec<char> = Vec::new();
    let mut arch: Vec<char> = vec!['x', '8', '6', '_', '6', '4'];
    let mut start: usize = 0;
    let mut i: usize = 0;
    proof {
        assert(v@.take(0) == Seq::<char>::empty());
        assert(split_lines(v@.take(0)).drop_last() == Seq::<Seq<char>>::empty());
        assert(v@.subrange(0, 0) == Seq::<char>::empty());
    }
    while i < v.len()
        invariant
            start <= i <= v@.len(),
            v@ == text@,
            split_lines(v@.take(i as int)).len() >= 1,
            scan_lines(split_lines(v@.take(i as int)).drop_last()) == seq![
                id@,
                name@,
                version@,
                exec_path@,
                caps@,
                depends@,
                arch@,
            ],
            split_lines(v@.take(i as int)).last() == v@.subrange(start as int, i as int),
        decreases v.len() - i,
    {
        let ghost lines = split_lines(v@.take(i as int));
        assert(v@.take(i + 1).drop_last() == v@.take(i as int));
        if v[i] == '\n' {
            let eff = line_assignment(&v, start, i);
            match eff {
                Some((k, val)) => {
                    if k == 0 {
                        id = val;
                    } else if k == 1 {
                        name = val;
                    } else if k == 2 {
                        version = val;
                    } else if k == 3 {
                        exec_path = val;
                    } else if k == 4 {
                        caps = val;
                    } else if k == 5 {
                        depends = val;
                    } else {
                        arch = val;
                    }
                },
                None => {},
            }
            proof {
                assert(split_lines(v@.take(i + 1)) == lines.push(Seq::empty()));
                assert(split_lines(v@.take(i + 1)).drop_last() == lines);
                assert(lines == lines.drop_last().push(lines.last()));
                assert(v@.subrange(i + 1, i + 1) == Seq::<char>::empty());
            }
            start = i + 1;
        } else {
            proof {
                let nl = lines.update(lines.len() - 1, lines.last().push(v@[i as int]));
                assert(split_lines(v@.take(i + 1)) == nl);
                assert(nl.drop_last() == lines.drop_last());
                assert(v@.subrange(start as int, i + 1) == v@.subrange(start as int, i as int).push(
                    v@[i as int],
                ));
            }
        }
        i = i + 1;
    }
    let eff = line_assignment(&v, start, v.len());
    match eff {
        Some((k, val)) => {
            if k == 0 {
                id = val;
            } else if k == 1 {
                name = val;
            } else if k == 2 {
                version = val;
            } else if k == 3 {
                exec_path = val;
            } else if k == 4 {
                caps = val;
            } else if k == 5 {
                depends = val;
            } else {
                arch = val;
            }
        },
        None => {},
    }
    proof {
        let lines = split_lines(v@.take(i as int));
        assert(v@.take(i as int) == v@);
        assert(lines == lines.drop_last().push(lines.last()));
        assert(manifest_fields(text@) == seq![id@, name@, version@, exec_path@, caps@, depends@, arch@]);
    }
    if id.len() == 0 || name.len() == 0 || version.len() == 0 || exec_path.len() == 0 {
        return Err(ManifestError::MissingField);
    }
    path_field_check("id", &id)?;
    path_field_check("version", &version)?;
    path_field_check("arch", &arch)?;
    control_check("name", &name)?;
    control_check("exec", &exec_path)?;
    control_check("caps", &caps)?;
    control_check("depends", &depends)?;
    Ok(
        Manifest {
            id: string_of(&id),
            name: string_of(&name),
            version: string_of(&version),
            exec_path: string_of(&exec_path),
            caps: string_of(&caps),
            depends: string_of(&depends),
            arch: string_of(&arch),
        },
    )
}

} // verus!

verus! {

// ── finding the manifest in the archive ──────────────────────────────────

/// One member of a tar archive: its path and its contents.
pub struct TarMember {
    pub path: String,
    pub data: Vec<u8>,
}

/// The members of a tar archive, in order, as far as they could be read, and
/// whether the whole archive was read without error.
pub uninterp spec fn tar_listing(archive: Seq<u8>) -> (Seq<(Seq<char>, Seq<u8>)>, bool);

pub open spec fn member_view(m: TarMember) -> (Seq<char>, Seq<u8>) {
    (m.path@, m.data@)
}

/// Calls `tar::Archive::entries` on the archive bytes and reads each entry's
/// path (`Entry::path`, converted with `to_string_lossy`) and contents. It
/// stops at the first entry that cannot be read, and then reports `false`.
/// Claimed: the members and the flag are `tar_listing` of the bytes.
#[verifier::external_body]
fn list_tar(archive: &[u8]) -> (r: (Vec<TarMember>, bool))
    ensures
        (r.0@.map_values(|m: TarMember| member_view(m)), r.1) == tar_listing(archive@),
{
    let mut out = Vec::new();
    let mut ar = tar::Archive::new(archive);
    let Ok(entries) = ar.entries() else { return (out, false) };
    for entry in entries {
        let Ok(mut e) = entry else { return (out, false) };
        let Ok(path) = e.path().map(|p| p.to_string_lossy().into_owned()) else { return (out, false) };
        let mut data = Vec::new();
        let Ok(_) = e.read_to_end(&mut data) else { return (out, false) };
        out.push(TarMember { path, data });
    }
    (out, true)
}

/// Calls `std::str::from_utf8`. Claimed: it succeeds exactly on valid UTF-8,
/// and then gives the decoded characters.
#[verifier::external_body]
fn utf8_text(bytes: &[u8]) -> (r: Option<String>)
    ensures
        r is Some <==> vstd::utf8::valid_utf8(bytes@),
        r matches Some(s) ==> s@ == vstd::utf8::decode_utf8(bytes@),
{
    std::str::from_utf8(bytes).ok().map(|s| s.to_string())
}

/// A member path with every leading `./` removed (`trim_start_matches("./")`).
pub open spec fn strip_dot_slash(p: Seq<char>) -> Seq<char>
    decreases p.len(),
{
    if p.len() >= 2 && p[0] == '.' && p[1] == '/' {
        strip_dot_slash(p.skip(2))
    } else {
        p
    }
}

pub open spec fn is_manifest_member() -> spec_fn((Seq<char>, Seq<u8>)) -> bool {
    |m: (Seq<char>, Seq<u8>)| strip_dot_slash(m.0) == "manifest"@
}

/// The outcome of reading the `manifest` member `data`: at most
/// `MAX_MANIFEST_BYTES + 1` bytes of it are decoded as UTF-8; more than
/// `MAX_MANIFEST_BYTES` is refused; the text is then parsed.
pub open spec fn is_member_outcome(data: Seq<u8>, r: Result<Manifest, ManifestError>) -> bool {
    let prefix = if data.len() > MAX_MANIFEST_BYTES + 1 {
        data.take(MAX_MANIFEST_BYTES + 1)
    } else {
        data
    };
    if !vstd::utf8::valid_utf8(prefix) {
        r matches Err(ManifestError::NotUtf8)
    } else if prefix.len() > MAX_MANIFEST_BYTES {
        r matches Err(ManifestError::TooLarge)
    } else {
        let f = manifest_fields(vstd::utf8::decode_utf8(prefix));
        match r {
            Ok(m) => fields_accepted(f) && manifest_holds(m, f),
            Err(e) => !fields_accepted(f) && is_refusal(f, e),
        }
    }
}

fn is_manifest_path(path: &String) -> (b: bool)
    ensures
        b == (strip_dot_slash(path@) == "manifest"@),
{
    let v = chars_of(path.as_str());
    let mut i: usize = 0;
    assert(v@.skip(0) == v@);
    while v.len() - i >= 2 && v[i] == '.' && v[i + 1] == '/'
        invariant
            i <= v@.len(),
            v@ == path@,
            strip_dot_slash(v@) == strip_dot_slash(v@.skip(i as int)),
        decreases v.len() - i,
    {
        assert(v@.skip(i as int).skip(2) == v@.skip(i + 2));
        i = i + 2;
    }
    proof {
        reveal_strlit("manifest");
        if i + 2 <= v@.len() {
            assert(v@.skip(i as int)[0] == v@[i as int]);
            assert(v@.skip(i as int)[1] == v@[i + 1]);
        }
        assert(v@.skip(i as int) == v@.subrange(i as int, v@.len() as int));
    }
    assert(['m', 'a', 'n', 'i', 'f', 'e', 's', 't']@ == "manifest"@);
    range_is(&v, i, v.len(), &['m', 'a', 'n', 'i', 'f', 'e', 's', 't'])
}

fn parse_member(data: &Vec<u8>) -> (r: Result<Manifest, ManifestError>)
    ensures
        is_member_outcome(data@, r),
{
    let n = if data.len() > MAX_MANIFEST_BYTES + 1 {
        MAX_MANIFEST_BYTES + 1
    } else {
        data.len()
    };
    let prefix = data.as_slice().split_at(n).0;
    assert(prefix@ == (if data@.len() > MAX_MANIFEST_BYTES + 1 {
        data@.take(MAX_MANIFEST_BYTES + 1)
    } else {
        data@
    }));
    match utf8_text(prefix) {
        None => Err(ManifestError::NotUtf8),
        Some(text) => {
            if n > MAX_MANIFEST_BYTES {
                Err(ManifestError::TooLarge)
            } else {
                parse(text.as_str())
            }
        },
    }
}

/// The outcome of `read_manifest` on the archive bytes: the first member whose
/// path, without leading `./`, is `manifest` is read and parsed; with no such
/// member the archive is refused, as unreadable if reading it stopped early.
pub open spec fn is_read_outcome(archive: Seq<u8>, r: Result<Manifest, ManifestError>) -> bool {
    let (members, complete) = tar_listing(archive);
    match first_match(members, is_manifest_member()) {
        Some(k) => is_member_outcome(members[k].1, r),
        None => if complete {
            r matches Err(ManifestError::NoManifest)
        } else {
            r matches Err(ManifestError::Archive)
        },
    }
}

/// Reads a `.hpkg` package (an uncompressed ustar archive) and parses its
/// `manifest` member.
pub fn read_manifest(archive: &[u8]) -> (r: Result<Manifest, ManifestError>)
    ensures
        is_read_outcome(archive@, r),
{
    let (members, complete) = list_tar(archive);
    let ghost ms = members@.map_values(|m: TarMember| member_view(m));
    assert(tar_listing(archive@) == (ms, complete));
    let mut k: usize = 0;
    while k < members.len()
        invariant
            k <= members@.len(),
            ms == members@.map_values(|m: TarMember| member_view(m)),
            tar_listing(archive@) == (ms, complete),
            forall|j: int| 0 <= j < k ==> !is_manifest_member()(#[trigger] ms[j]),
        decreases members.len() - k,
    {
        if is_manifest_path(&members[k].path) {
            proof {
                assert(ms[k as int] == member_view(members@[k as int]));
                assert(tar_listing(archive@).0 == ms);
                assert(is_manifest_member()(ms[k as int]));
                lemma_first_match(ms, is_manifest_member());
                let f = first_match(ms, is_manifest_member());
                if f is Some {
                    let q = f->0;
                    assert(is_manifest_member()(ms[q]));
                }
            }
            return parse_member(&members[k].data);
        }
        k = k + 1;
    }
    proof {
        assert(tar_listing(archive@) == (ms, complete));
        lemma_first_match(ms, is_manifest_member());
        let f = first_match(ms, is_manifest_member());
        if f is Some {
            let q = f->0;
            assert(is_manifest_member()(ms[q]));
        }
    }
    if complete {
        Err(ManifestError::NoManifest)
    } else {
        Err(ManifestError::Archive)
    }
}

} // verus!

verus! {

proof fn lemma_no_control(v: Seq<char>)
    requires
        first_control(v) is None,
    ensures
        forall|i: int| 0 <= i < v.len() ==> !is_control(#[trigger] v[i]),
{
    lemma_first_match(v, control_char());
    assert forall|i: int| 0 <= i < v.len() implies !is_control(#[trigger] v[i]) by {
        assert(!control_char()(v[i]));
    }
}

proof fn lemma_path_field_no_control(v: Seq<char>)
    requires
        field_problem(v) is None,
    ensures
        forall|i: int| 0 <= i < v.len() ==> !is_control(#[trigger] v[i]),
{
    lemma_first_match(v, crate::field::not_allowed());
    assert forall|i: int| 0 <= i < v.len() implies !is_control(#[trigger] v[i]) by {
        assert(!crate::field::not_allowed()(v[i]));
    }
}

/// No field of an accepted manifest holds a control character, so none can
/// break a line of the signed `Packages` metadata.
pub proof fn law_accepted_manifest_has_no_control_chars(text: Seq<char>)
    requires
        fields_accepted(manifest_fields(text)),
    ensures
        manifest_fields(text).len() == 7,
        forall|k: int, i: int|
            0 <= k < 7 && 0 <= i < manifest_fields(text)[k].len() ==> !is_control(
                #[trigger] manifest_fields(text)[k][i],
            ),
{
    let f = manifest_fields(text);
    lemma_scan_len(split_lines(text));
    lemma_path_field_no_control(f[0]);
    lemma_path_field_no_control(f[2]);
    lemma_path_field_no_control(f[6]);
    lemma_no_control(f[1]);
    lemma_no_control(f[3]);
    lemma_no_control(f[4]);
    lemma_no_control(f[5]);
    assert forall|k: int, i: int| 0 <= k < 7 && 0 <= i < f[k].len() implies !is_control(
        #[trigger] f[k][i],
    ) by {
        if k == 0 {
        } else if k == 1 {
        } else if k == 2 {
        } else if k == 3 {
        } else if k == 4 {
        } else if k == 5 {
        } else {
        }
    }
}

} // verus!
