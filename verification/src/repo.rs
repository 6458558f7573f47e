//! The repository's package index and configuration, and what the management
//! commands decide about them.

use vstd::prelude::*;
use crate::text::{chars_of, string_of, push_str, split_on, lemma_split_on_extend, lemma_split_on_sep, lemma_first_match};
use crate::field::{field_problem, allowed_char, not_allowed, validate_field, FieldError};
use crate::pkg::Manifest;
use crate::hex::{sha256, sha256_hex, hex_spec};

verus! {

/// The repository configuration.
pub struct Config {
    pub origin: String,
    pub suites: Vec<String>,
    pub components: Vec<String>,
    pub architectures: Vec<String>,
}

/// The text values of a list of strings.
pub open spec fn texts(v: Seq<String>) -> Seq<Seq<char>> {
    v.map_values(|s: String| s@)
}

/// A configuration, as text values.
pub struct ConfigView {
    pub origin: Seq<char>,
    pub suites: Seq<Seq<char>>,
    pub components: Seq<Seq<char>>,
    pub architectures: Seq<Seq<char>>,
}

impl View for Config {
    type V = ConfigView;

    open spec fn view(&self) -> ConfigView {
        ConfigView {
            origin: self.origin@,
            suites: texts(self.suites@),
            components: texts(self.components@),
            architectures: texts(self.architectures@),
        }
    }
}

/// One package in one suite/component: an entry of the index.
#[derive(Clone)]
pub struct Entry {
    /// The manifest `id` (the package's stable identifier).
    pub name: String,
    pub version: String,
    pub arch: String,
    pub suite: String,
    pub component: String,
    /// The pool file, relative to the repository root.
    pub filename: String,
    pub size: u64,
    pub sha256: String,
    pub display_name: String,
    pub exec_path: String,
    pub caps: String,
    pub depends: String,
}

/// An entry, as text values.
pub struct EntryView {
    pub name: Seq<char>,
    pub version: Seq<char>,
    pub arch: Seq<char>,
    pub suite: Seq<char>,
    pub component: Seq<char>,
    pub filename: Seq<char>,
    pub size: u64,
    pub sha256: Seq<char>,
    pub display_name: Seq<char>,
    pub exec_path: Seq<char>,
    pub caps: Seq<char>,
    pub depends: Seq<char>,
}

impl View for Entry {
    type V = EntryView;

    open spec fn view(&self) -> EntryView {
        EntryView {
            name: self.name@,
            version: self.version@,
            arch: self.arch@,
            suite: self.suite@,
            component: self.component@,
            filename: self.filename@,
            size: self.size,
            sha256: self.sha256@,
            display_name: self.display_name@,
            exec_path: self.exec_path@,
            caps: self.caps@,
            depends: self.depends@,
        }
    }
}

/// The index, as text values.
pub open spec fn entries(db: Seq<Entry>) -> Seq<EntryView> {
    db.map_values(|e: Entry| e@)
}

/// Two entries occupy the same slot (and so supersede each other) when they
/// share id, version, arch, suite and component.
pub open spec fn same_slot_spec(a: EntryView, b: EntryView) -> bool {
    &&& a.name == b.name
    &&& a.version == b.version
    &&& a.arch == b.arch
    &&& a.suite == b.suite
    &&& a.component == b.component
}

/// The entries that keep their place when `e` is added.
pub open spec fn outside_slot_of(e: EntryView) -> spec_fn(EntryView) -> bool {
    |x: EntryView| !same_slot_spec(x, e)
}

/// The index after adding `e`: every entry in its slot is dropped and `e` is
/// appended.
pub open spec fn insert_spec(db: Seq<EntryView>, e: EntryView) -> Seq<EntryView> {
    db.filter(outside_slot_of(e)).push(e)
}

impl Entry {
    /// Whether the two entries occupy the same slot.
    pub fn same_slot(&self, o: &Entry) -> (b: bool)
        ensures
            b == same_slot_spec(self@, o@),
    {
        self.name == o.name && self.version == o.version && self.arch == o.arch && self.suite
            == o.suite && self.component == o.component
    }

    /// A field-by-field copy.
    pub fn duplicate(&self) -> (r: Entry)
        ensures
            r@ == self@,
    {
        Entry {
            name: self.name.clone(),
            version: self.version.clone(),
            arch: self.arch.clone(),
            suite: self.suite.clone(),
            component: self.component.clone(),
            filename: self.filename.clone(),
            size: self.size,
            sha256: self.sha256.clone(),
            display_name: self.display_name.clone(),
            exec_path: self.exec_path.clone(),
            caps: self.caps.clone(),
            depends: self.depends.clone(),
        }
    }
}

proof fn lemma_entries_push(s: Seq<Entry>, x: Entry)
    ensures
        entries(s.push(x)) == entries(s).push(x@),
{
    assert(entries(s.push(x)) =~= entries(s).push(x@));
}

proof fn lemma_entries_take_push(s: Seq<Entry>, i: int)
    requires
        0 <= i < s.len(),
    ensures
        entries(s.take(i + 1)) == entries(s.take(i)).push(s[i]@),
        entries(s).take(i + 1) == entries(s).take(i).push(s[i]@),
{
    assert(entries(s.take(i + 1)) =~= entries(s.take(i)).push(s[i]@));
    assert(entries(s).take(i + 1) =~= entries(s).take(i).push(s[i]@));
}

/// Adds `e` to the index, superseding any entry in the same slot.
pub fn insert_entry(db: &mut Vec<Entry>, e: Entry)
    ensures
        entries(final(db)@) == insert_spec(entries(old(db)@), e@),
{
    let mut prev: Vec<Entry> = Vec::new();
    std::mem::swap(db, &mut prev);
    let ghost all = prev@;
    assert(entries(all).take(0) =~= Seq::<EntryView>::empty());
    for x in it: prev
        invariant
            entries(db@) == entries(all).take(it.index() as int).filter(outside_slot_of(e@)),
            it.seq() == all,
    {
        proof {
            lemma_entries_take_push(all, it.index() as int);
            entries(all).take(it.index() as int).lemma_filter_push(x@, outside_slot_of(e@));
        }
        if !x.same_slot(&e) {
            proof {
                lemma_entries_push(db@, x);
            }
            db.push(x);
        }
    }
    assert(entries(all).take(all.len() as int) == entries(all));
    proof {
        lemma_entries_push(db@, e);
    }
    db.push(e);
}

} // verus!

verus! {

/// The text of an optional string argument.
pub open spec fn opt_text(o: Option<&str>) -> Option<Seq<char>> {
    match o {
        Some(s) => Some(s@),
        None => None,
    }
}

/// The entries that `remove` takes out: those of package `name`, restricted
/// to `version` and to `suite` when they are given.
pub open spec fn removal_match(name: Seq<char>, version: Option<Seq<char>>, suite: Option<Seq<char>>) -> spec_fn(EntryView) -> bool {
    |x: EntryView|
        x.name == name && (version matches Some(v) ==> x.version == v) && (suite matches Some(s)
            ==> x.suite == s)
}

pub open spec fn negate(p: spec_fn(EntryView) -> bool) -> spec_fn(EntryView) -> bool {
    |x: EntryView| !p(x)
}

fn opt_string(o: Option<&str>) -> (r: Option<String>)
    ensures
        match r {
            Some(s) => opt_text(o) == Some(s@),
            None => o is None,
        },
{
    match o {
        Some(s) => Some(String::from_str(s)),
        None => None,
    }
}

/// Takes out of the index the entries of package `name` (of one version, of
/// one suite, when given) and returns them, in index order.
pub fn remove_entries(db: &mut Vec<Entry>, name: &str, version: Option<&str>, suite: Option<&str>) -> (removed: Vec<Entry>)
    ensures
        entries(removed@) == entries(old(db)@).filter(removal_match(name@, opt_text(version), opt_text(suite))),
        entries(final(db)@) == entries(old(db)@).filter(negate(removal_match(name@, opt_text(version), opt_text(suite)))),
{
    let name_s = String::from_str(name);
    let version_s = opt_string(version);
    let suite_s = opt_string(suite);
    let ghost m = removal_match(name@, opt_text(version), opt_text(suite));
    let mut prev: Vec<Entry> = Vec::new();
    std::mem::swap(db, &mut prev);
    let ghost all = prev@;
    let mut removed: Vec<Entry> = Vec::new();
    assert(entries(all).take(0) =~= Seq::<EntryView>::empty());
    for x in it: prev
        invariant
            it.seq() == all,
            m == removal_match(name@, opt_text(version), opt_text(suite)),
            name_s@ == name@,
            match version_s { Some(v) => opt_text(version) == Some(v@), None => version is None },
            match suite_s { Some(s) => opt_text(suite) == Some(s@), None => suite is None },
            entries(removed@) == entries(all).take(it.index() as int).filter(m),
            entries(db@) == entries(all).take(it.index() as int).filter(negate(m)),
    {
        proof {
            lemma_entries_take_push(all, it.index() as int);
            entries(all).take(it.index() as int).lemma_filter_push(x@, m);
            entries(all).take(it.index() as int).lemma_filter_push(x@, negate(m));
        }
        let hit = x.name == name_s && match &version_s {
            Some(v) => x.version == *v,
            None => true,
        } && match &suite_s {
            Some(s) => x.suite == *s,
            None => true,
        };
        assert(hit == m(x@));
        if hit {
            proof {
                lemma_entries_push(removed@, x);
            }
            removed.push(x);
        } else {
            proof {
                lemma_entries_push(db@, x);
            }
            db.push(x);
        }
    }
    assert(entries(all).take(all.len() as int) == entries(all));
    removed
}

/// Whether some entry of `db` uses the pool file `f`.
pub open spec fn references(db: Seq<EntryView>, f: Seq<char>) -> bool {
    exists|i: int| 0 <= i < db.len() && (#[trigger] db[i]).filename == f
}

/// The pool files of `removed` that no entry of `remaining` uses, one per
/// removed entry, in order.
pub open spec fn orphans_spec(removed: Seq<EntryView>, remaining: Seq<EntryView>) -> Seq<Seq<char>>
    decreases removed.len(),
{
    if removed.len() == 0 {
        Seq::empty()
    } else {
        let rest = orphans_spec(removed.drop_last(), remaining);
        if references(remaining, removed.last().filename) {
            rest
        } else {
            rest.push(removed.last().filename)
        }
    }
}

fn is_referenced(db: &Vec<Entry>, f: &String) -> (b: bool)
    ensures
        b == references(entries(db@), f@),
{
    let mut i: usize = 0;
    while i < db.len()
        invariant
            i <= db@.len(),
            forall|j: int| 0 <= j < i ==> (#[trigger] entries(db@)[j]).filename != f@,
        decreases db.len() - i,
    {
        if db[i].filename == *f {
            assert(entries(db@)[i as int].filename == f@);
            return true;
        }
        i = i + 1;
    }
    false
}

/// The pool files that removing `removed` leaves unused by `remaining`.
pub fn orphaned_files(removed: &Vec<Entry>, remaining: &Vec<Entry>) -> (r: Vec<String>)
    ensures
        texts(r@) == orphans_spec(entries(removed@), entries(remaining@)),
{
    let mut r: Vec<String> = Vec::new();
    let mut i: usize = 0;
    assert(entries(removed@).take(0) =~= Seq::<EntryView>::empty());
    assert(texts(r@) =~= Seq::<Seq<char>>::empty());
    while i < removed.len()
        invariant
            i <= removed@.len(),
            texts(r@) == orphans_spec(entries(removed@).take(i as int), entries(remaining@)),
        decreases removed.len() - i,
    {
        proof {
            lemma_entries_take_push(removed@, i as int);
            assert(entries(removed@).take(i + 1).drop_last() == entries(removed@).take(i as int));
        }
        if !is_referenced(remaining, &removed[i].filename) {
            let f = removed[i].filename.clone();
            assert(texts(r@.push(f)) =~= texts(r@).push(f@));
            r.push(f);
        }
        i = i + 1;
    }
    assert(entries(removed@).take(removed@.len() as int) == entries(removed@));
    r
}

} // verus!

verus! {

/// The entries that `promote` copies: those of package `name` in suite
/// `from`.
pub open spec fn promote_from(name: Seq<char>, from: Seq<char>) -> spec_fn(EntryView) -> bool {
    |x: EntryView| x.name == name && x.suite == from
}

/// `e`, moved to suite `to`.
pub open spec fn moved(e: EntryView, to: Seq<char>) -> EntryView {
    EntryView {
        name: e.name,
        version: e.version,
        arch: e.arch,
        suite: to,
        component: e.component,
        filename: e.filename,
        size: e.size,
        sha256: e.sha256,
        display_name: e.display_name,
        exec_path: e.exec_path,
        caps: e.caps,
        depends: e.depends,
    }
}

/// The index after inserting each entry of `src`, moved to suite `to`, in
/// order.
pub open spec fn promote_spec(db: Seq<EntryView>, src: Seq<EntryView>, to: Seq<char>) -> Seq<EntryView>
    decreases src.len(),
{
    if src.len() == 0 {
        db
    } else {
        insert_spec(promote_spec(db, src.drop_last(), to), moved(src.last(), to))
    }
}

/// `promote` found nothing to copy.
#[derive(Debug, Clone, Copy, PartialEq, Eq, Structural)]
pub enum PromoteError {
    NoSuchPackage,
}

/// Copies every entry of package `name` in suite `from` into suite `to`,
/// each superseding whatever occupies its new slot; returns how many were
/// copied. Refused, with the index unchanged, when there is none.
pub fn promote_entries(db: &mut Vec<Entry>, name: &str, from: &str, to: &str) -> (r: Result<usize, PromoteError>)
    ensures
        ({
            let src = entries(old(db)@).filter(promote_from(name@, from@));
            &&& (r is Err <==> src.len() == 0)
            &&& r is Err ==> final(db)@ == old(db)@
            &&& r matches Ok(n) ==> n == src.len() && entries(final(db)@) == promote_spec(
                entries(old(db)@),
                src,
                to@,
            )
        }),
{
    let name_s = String::from_str(name);
    let from_s = String::from_str(from);
    let to_s = String::from_str(to);
    let ghost p = promote_from(name@, from@);
    let ghost all = entries(db@);
    let mut src: Vec<Entry> = Vec::new();
    let mut i: usize = 0;
    assert(all.take(0) =~= Seq::<EntryView>::empty());
    while i < db.len()
        invariant
            i <= db@.len(),
            all == entries(db@),
            name_s@ == name@,
            from_s@ == from@,
            entries(src@) == all.take(i as int).filter(p),
            p == promote_from(name@, from@),
        decreases db.len() - i,
    {
        proof {
            lemma_entries_take_push(db@, i as int);
            all.take(i as int).lemma_filter_push(db@[i as int]@, p);
        }
        if db[i].name == name_s && db[i].suite == from_s {
            let e = db[i].duplicate();
            proof {
                lemma_entries_push(src@, e);
            }
            src.push(e);
        }
        i = i + 1;
    }
    assert(all.take(all.len() as int) == all);
    if src.len() == 0 {
        return Err(PromoteError::NoSuchPackage);
    }
    let n = src.len();
    let ghost s = entries(src@);
    let mut k: usize = 0;
    assert(s.take(0) =~= Seq::<EntryView>::empty());
    while k < src.len()
        invariant
            k <= src@.len(),
            s == entries(src@),
            to_s@ == to@,
            entries(db@) == promote_spec(all, s.take(k as int), to@),
        decreases src.len() - k,
    {
        let mut e = src[k].duplicate();
        e.suite = to_s.clone();
        proof {
            lemma_entries_take_push(src@, k as int);
            assert(s.take(k + 1).drop_last() == s.take(k as int));
            assert(e@ == moved(s[k as int], to@));
        }
        insert_entry(db, e);
        k = k + 1;
    }
    assert(s.take(s.len() as int) == s);
    Ok(n)
}

/// `list` with `x` appended unless already present.
pub open spec fn with_name(list: Seq<Seq<char>>, x: Seq<char>) -> Seq<Seq<char>> {
    if list.contains(x) {
        list
    } else {
        list.push(x)
    }
}

/// Appends `x` to `list` unless it is already there; whether it was added.
pub fn add_name(list: &mut Vec<String>, x: &str) -> (added: bool)
    ensures
        texts(final(list)@) == with_name(texts(old(list)@), x@),
        added == !texts(old(list)@).contains(x@),
{
    let xs = String::from_str(x);
    let mut i: usize = 0;
    while i < list.len()
        invariant
            i <= list@.len(),
            xs@ == x@,
            forall|j: int| 0 <= j < i ==> (#[trigger] texts(list@)[j]) != x@,
        decreases list.len() - i,
    {
        if list[i] == xs {
            assert(texts(list@)[i as int] == x@);
            return false;
        }
        i = i + 1;
    }
    assert(texts(list@.push(xs)) =~= texts(list@).push(x@));
    list.push(xs);
    true
}

impl Config {
    /// The configuration of a new repository: suite `stable`, component
    /// `main`, architecture `x86_64`.
    pub fn initial(origin: &str) -> (c: Config)
        ensures
            c@ == (ConfigView {
                origin: origin@,
                suites: seq!["stable"@],
                components: seq!["main"@],
                architectures: seq!["x86_64"@],
            }),
    {
        let c = Config {
            origin: String::from_str(origin),
            suites: vec![String::from_str("stable")],
            components: vec![String::from_str("main")],
            architectures: vec![String::from_str("x86_64")],
        };
        assert(c@.suites =~= seq!["stable"@]);
        assert(c@.components =~= seq!["main"@]);
        assert(c@.architectures =~= seq!["x86_64"@]);
        c
    }

    /// Records a suite, a component and an architecture, each unless already
    /// present.
    pub fn register(&mut self, suite: &str, component: &str, arch: &str)
        ensures
            final(self)@ == (ConfigView {
                origin: old(self)@.origin,
                suites: with_name(old(self)@.suites, suite@),
                components: with_name(old(self)@.components, component@),
                architectures: with_name(old(self)@.architectures, arch@),
            }),
    {
        add_name(&mut self.suites, suite);
        add_name(&mut self.components, component);
        add_name(&mut self.architectures, arch);
    }
}

} // verus!

verus! {

/// `char::to_ascii_lowercase`.
pub open spec fn ascii_lower(c: char) -> char {
    if 'A' <= c && c <= 'Z' {
        (c as int + 32) as char
    } else {
        c
    }
}

/// The pool bucket of a package: the first character of its id, lowercased,
/// or `_` for an empty id.
pub open spec fn bucket(name: Seq<char>) -> char {
    if name.len() == 0 {
        '_'
    } else {
        ascii_lower(name[0])
    }
}

/// The pool file name: `<name>_<version>_<arch>.hpkg`.
pub open spec fn pool_file_spec(name: Seq<char>, version: Seq<char>, arch: Seq<char>) -> Seq<char> {
    name + seq!['_'] + version + seq!['_'] + arch + seq!['.', 'h', 'p', 'k', 'g']
}

/// `pool/<bucket>/<name>/<name>_<version>_<arch>.hpkg`.
pub open spec fn pool_path_spec(name: Seq<char>, version: Seq<char>, arch: Seq<char>) -> Seq<char> {
    seq!['p', 'o', 'o', 'l', '/', bucket(name), '/'] + name + seq!['/'] + pool_file_spec(
        name,
        version,
        arch,
    )
}

fn lower_ascii(c: char) -> (r: char)
    ensures
        r == ascii_lower(c),
{
    if 'A' <= c && c <= 'Z' {
        ((c as u8) + 32) as char
    } else {
        c
    }
}

/// The path of a package file in the pool, relative to the repository root.
pub fn pool_path(name: &str, version: &str, arch: &str) -> (p: String)
    ensures
        p@ == pool_path_spec(name@, version@, arch@),
{
    let n = chars_of(name);
    let prefix = if n.len() == 0 {
        '_'
    } else {
        lower_ascii(n[0])
    };
    let mut out: Vec<char> = Vec::new();
    out.push('p');
    out.push('o');
    out.push('o');
    out.push('l');
    out.push('/');
    out.push(prefix);
    out.push('/');
    push_str(&mut out, name);
    out.push('/');
    push_str(&mut out, name);
    out.push('_');
    push_str(&mut out, version);
    out.push('_');
    push_str(&mut out, arch);
    out.push('.');
    out.push('h');
    out.push('p');
    out.push('k');
    out.push('g');
    assert(out@ =~= pool_path_spec(name@, version@, arch@));
    string_of(&out)
}

/// The index entry for a package added to `suite`/`component`: its pool
/// path, size and digest, and the manifest's fields.
pub open spec fn is_new_entry(e: EntryView, m: Manifest, suite: Seq<char>, component: Seq<char>, data: Seq<u8>) -> bool {
    &&& e.name == m.id@
    &&& e.version == m.version@
    &&& e.arch == m.arch@
    &&& e.suite == suite
    &&& e.component == component
    &&& e.filename == pool_path_spec(m.id@, m.version@, m.arch@)
    &&& e.size == data.len()
    &&& e.sha256 == hex_spec(sha256(data))
    &&& e.display_name == m.name@
    &&& e.exec_path == m.exec_path@
    &&& e.caps == m.caps@
    &&& e.depends == m.depends@
}

/// The index entry for the package `data` with manifest `m`, added to
/// `suite`/`component`.
pub fn new_entry(m: &Manifest, suite: &str, component: &str, data: &[u8]) -> (e: Entry)
    ensures
        is_new_entry(e@, *m, suite@, component@, data@),
{
    Entry {
        name: m.id.clone(),
        version: m.version.clone(),
        arch: m.arch.clone(),
        suite: String::from_str(suite),
        component: String::from_str(component),
        filename: pool_path(m.id.as_str(), m.version.as_str(), m.arch.as_str()),
        size: data.len() as u64,
        sha256: sha256_hex(data),
        display_name: m.name.clone(),
        exec_path: m.exec_path.clone(),
        caps: m.caps.clone(),
        depends: m.depends.clone(),
    }
}

} // verus!

verus! {

proof fn lemma_accepted_field(v: Seq<char>)
    requires
        field_problem(v) is None,
    ensures
        v.len() > 0,
        v[0] != '.',
        forall|i: int| 0 <= i < v.len() ==> allowed_char(#[trigger] v[i]),
{
    lemma_first_match(v, not_allowed());
    assert forall|i: int| 0 <= i < v.len() implies allowed_char(#[trigger] v[i]) by {
        assert(!not_allowed()(v[i]));
    }
}

proof fn lemma_no_slash(v: Seq<char>)
    requires
        forall|i: int| 0 <= i < v.len() ==> allowed_char(#[trigger] v[i]),
    ensures
        forall|i: int| 0 <= i < v.len() ==> #[trigger] v[i] != '/',
{
    assert forall|i: int| 0 <= i < v.len() implies #[trigger] v[i] != '/' by {
        assert(allowed_char(v[i]));
    }
}

/// The pool path of a package whose id, version and arch were accepted by
/// `validate_field` has exactly four `/`-separated components: `pool`, a
/// one-character bucket, the id, and the file name; none is empty and none
/// starts with `.`, so none is `.` or `..` and the path stays in the pool.
pub proof fn law_pool_path_confined(name: Seq<char>, version: Seq<char>, arch: Seq<char>)
    requires
        field_problem(name) is None,
        field_problem(version) is None,
        field_problem(arch) is None,
    ensures
        ({
            let c = split_on(pool_path_spec(name, version, arch), '/');
            &&& c.len() == 4
            &&& c[0] == seq!['p', 'o', 'o', 'l']
            &&& forall|i: int| 0 <= i < 4 ==> (#[trigger] c[i]).len() > 0 && c[i][0] != '.'
        }),
{
    lemma_accepted_field(name);
    lemma_accepted_field(version);
    lemma_accepted_field(arch);
    lemma_no_slash(name);
    lemma_no_slash(version);
    lemma_no_slash(arch);
    let a = seq!['p', 'o', 'o', 'l'];
    let b = seq![bucket(name)];
    let d = pool_file_spec(name, version, arch);
    assert(allowed_char(name[0]));
    assert(bucket(name) != '/' && bucket(name) != '.');
    assert forall|i: int| 0 <= i < d.len() implies #[trigger] d[i] != '/' by {
        let k1 = name.len() as int;
        let k2 = k1 + 1 + version.len();
        let k3 = k2 + 1 + arch.len();
        if i < k1 {
            assert(d[i] == name[i]);
        } else if i == k1 {
        } else if i < k2 {
            assert(d[i] == version[i - k1 - 1]);
        } else if i == k2 {
        } else if i < k3 {
            assert(d[i] == arch[i - k2 - 1]);
        } else {
            assert(d[i] == seq!['.', 'h', 'p', 'k', 'g'][i - k3]);
        }
    }
    assert forall|i: int| 0 <= i < a.len() implies #[trigger] a[i] != '/' by {}
    assert forall|i: int| 0 <= i < b.len() implies #[trigger] b[i] != '/' by {}
    let e: Seq<char> = Seq::empty();
    lemma_split_on_extend(e, a, '/');
    assert(e + a == a);
    let s1 = a.push('/');
    lemma_split_on_sep(a, '/');
    lemma_split_on_extend(s1, b, '/');
    let s2 = (s1 + b).push('/');
    lemma_split_on_sep(s1 + b, '/');
    lemma_split_on_extend(s2, name, '/');
    let s3 = (s2 + name).push('/');
    lemma_split_on_sep(s2 + name, '/');
    lemma_split_on_extend(s3, d, '/');
    assert(s3 + d =~= pool_path_spec(name, version, arch));
    let c = split_on(pool_path_spec(name, version, arch), '/');
    assert(c =~= seq![a, b, name, d]);
    assert(d[0] == name[0]);
}

} // verus!

verus! {

/// The entries in the slot of `e`.
pub open spec fn in_slot_of(e: EntryView) -> spec_fn(EntryView) -> bool {
    |x: EntryView| same_slot_spec(x, e)
}

proof fn lemma_filter_filter_disjoint(s: Seq<EntryView>, e: EntryView)
    ensures
        s.filter(outside_slot_of(e)).filter(in_slot_of(e)) == Seq::<EntryView>::empty(),
        s.filter(outside_slot_of(e)).filter(outside_slot_of(e)) == s.filter(outside_slot_of(e)),
    decreases s.len(),
{
    reveal(Seq::filter);
    if s.len() > 0 {
        lemma_filter_filter_disjoint(s.drop_last(), e);
        s.drop_last().lemma_filter_push(s.last(), outside_slot_of(e));
        assert(s == s.drop_last().push(s.last()));
        let f = s.drop_last().filter(outside_slot_of(e));
        f.lemma_filter_push(s.last(), in_slot_of(e));
        f.lemma_filter_push(s.last(), outside_slot_of(e));
    } else {
        assert(s.filter(outside_slot_of(e)) =~= Seq::<EntryView>::empty());
    }
}

/// After adding `e`, its slot holds exactly `e`, and it is the last entry.
pub proof fn law_insert_supersedes(db: Seq<EntryView>, e: EntryView)
    ensures
        insert_spec(db, e).filter(in_slot_of(e)) == seq![e],
        insert_spec(db, e).last() == e,
{
    lemma_filter_filter_disjoint(db, e);
    db.filter(outside_slot_of(e)).lemma_filter_push(e, in_slot_of(e));
    assert(Seq::<EntryView>::empty().push(e) =~= seq![e]);
}

/// Adding `e` leaves every entry outside its slot, in order.
pub proof fn law_insert_keeps_others(db: Seq<EntryView>, e: EntryView)
    ensures
        insert_spec(db, e).filter(outside_slot_of(e)) == db.filter(outside_slot_of(e)),
{
    lemma_filter_filter_disjoint(db, e);
    db.filter(outside_slot_of(e)).lemma_filter_push(e, outside_slot_of(e));
}

/// Adding the same entry twice is adding it once.
pub proof fn law_insert_idempotent(db: Seq<EntryView>, e: EntryView)
    ensures
        insert_spec(insert_spec(db, e), e) == insert_spec(db, e),
{
    law_insert_keeps_others(db, e);
}

/// `remove` splits the index: what it takes out and what it leaves add up to
/// the old index, and nothing left matches.
pub proof fn law_remove_partitions(db: Seq<EntryView>, m: spec_fn(EntryView) -> bool)
    ensures
        db.filter(m).len() + db.filter(negate(m)).len() == db.len(),
        db.filter(negate(m)).filter(m) == Seq::<EntryView>::empty(),
    decreases db.len(),
{
    reveal(Seq::filter);
    if db.len() > 0 {
        law_remove_partitions(db.drop_last(), m);
        assert(db == db.drop_last().push(db.last()));
        db.drop_last().lemma_filter_push(db.last(), m);
        db.drop_last().lemma_filter_push(db.last(), negate(m));
        let f = db.drop_last().filter(negate(m));
        f.lemma_filter_push(db.last(), m);
    } else {
        assert(db.filter(m) =~= Seq::<EntryView>::empty());
        assert(db.filter(negate(m)) =~= Seq::<EntryView>::empty());
    }
}

/// Promoting into another suite leaves the source suite as it was.
pub proof fn law_promote_keeps_source(db: Seq<EntryView>, src: Seq<EntryView>, to: Seq<char>, from: Seq<char>)
    requires
        to != from,
    ensures
        promote_spec(db, src, to).filter(|x: EntryView| x.suite == from) == db.filter(
            |x: EntryView| x.suite == from,
        ),
    decreases src.len(),
{
    if src.len() > 0 {
        law_promote_keeps_source(db, src.drop_last(), to, from);
        let p = promote_spec(db, src.drop_last(), to);
        let e = moved(src.last(), to);
        lemma_filter_outside_other_suite(p, e, from);
        p.filter(outside_slot_of(e)).lemma_filter_push(e, |x: EntryView| x.suite == from);
    }
}

proof fn lemma_filter_outside_other_suite(s: Seq<EntryView>, e: EntryView, from: Seq<char>)
    requires
        e.suite != from,
    ensures
        s.filter(outside_slot_of(e)).filter(|x: EntryView| x.suite == from) == s.filter(
            |x: EntryView| x.suite == from,
        ),
    decreases s.len(),
{
    reveal(Seq::filter);
    if s.len() > 0 {
        lemma_filter_outside_other_suite(s.drop_last(), e, from);
        assert(s == s.drop_last().push(s.last()));
        s.drop_last().lemma_filter_push(s.last(), outside_slot_of(e));
        s.drop_last().lemma_filter_push(s.last(), |x: EntryView| x.suite == from);
        let f = s.drop_last().filter(outside_slot_of(e));
        f.lemma_filter_push(s.last(), |x: EntryView| x.suite == from);
    } else {
        assert(s.filter(outside_slot_of(e)) =~= Seq::<EntryView>::empty());
    }
}

/// Recording a name twice is recording it once, and afterwards the list holds
/// it.
pub proof fn law_with_name(list: Seq<Seq<char>>, x: Seq<char>)
    ensures
        with_name(with_name(list, x), x) == with_name(list, x),
        with_name(list, x).contains(x),
{
    if !list.contains(x) {
        assert(list.push(x)[list.len() as int] == x);
    }
}

} // verus!

verus! {

/// Where `add` puts a package: a suite and a component that both passed the
/// field rule, so that they are safe as parts of `dists/` paths. Only
/// [`Placement::check`] makes one.
pub struct Placement {
    suite: String,
    component: String,
}

impl Placement {
    #[verifier::type_invariant]
    spec fn names_are_valid(self) -> bool {
        &&& field_problem(self.suite@) is None
        &&& field_problem(self.component@) is None
    }

    /// The suite.
    pub closed spec fn suite_text(self) -> Seq<char> {
        self.suite@
    }

    /// The component.
    pub closed spec fn component_text(self) -> Seq<char> {
        self.component@
    }

    /// Validates the suite, then the component; the first refused one is the
    /// error.
    pub fn check(suite: &str, component: &str) -> (r: Result<Placement, FieldError>)
        ensures
            r is Ok <==> (field_problem(suite@) is None && field_problem(component@) is None),
            r matches Ok(p) ==> p.suite_text() == suite@ && p.component_text() == component@,
            r matches Err(e) ==> if field_problem(suite@) is Some {
                &&& e.kind@ == "suite"@
                &&& e.value@ == suite@
                &&& Some(e.problem) == field_problem(suite@)
            } else {
                &&& e.kind@ == "component"@
                &&& e.value@ == component@
                &&& Some(e.problem) == field_problem(component@)
            },
    {
        match validate_field("suite", suite) {
            Err(e) => return Err(e),
            Ok(()) => {},
        }
        match validate_field("component", component) {
            Err(e) => return Err(e),
            Ok(()) => {},
        }
        Ok(Placement { suite: String::from_str(suite), component: String::from_str(component) })
    }

    /// Adds the package `data` with manifest `m` here: its entry supersedes
    /// whatever occupies its slot in the index, and the configuration records
    /// the suite, the component and the architecture. Returns the new entry,
    /// whose `filename` is where the package goes in the pool.
    pub fn add(&self, db: &mut Vec<Entry>, cfg: &mut Config, m: &Manifest, data: &[u8]) -> (e: Entry)
        ensures
            is_new_entry(e@, *m, self.suite_text(), self.component_text(), data@),
            field_problem(e@.suite) is None,
            field_problem(e@.component) is None,
            entries(final(db)@) == insert_spec(entries(old(db)@), e@),
            final(cfg)@ == (ConfigView {
                origin: old(cfg)@.origin,
                suites: with_name(old(cfg)@.suites, self.suite_text()),
                components: with_name(old(cfg)@.components, self.component_text()),
                architectures: with_name(old(cfg)@.architectures, m.arch@),
            }),
    {
        proof {
            use_type_invariant(self);
        }
        let e = new_entry(m, self.suite.as_str(), self.component.as_str(), data);
        insert_entry(db, e.duplicate());
        cfg.register(self.suite.as_str(), self.component.as_str(), m.arch.as_str());
        e
    }
}

/// A suite that `promote` copies into: a name that passed the field rule.
/// Only [`TargetSuite::check`] makes one.
pub struct TargetSuite {
    name: String,
}

impl TargetSuite {
    #[verifier::type_invariant]
    spec fn name_is_valid(self) -> bool {
        field_problem(self.name@) is None
    }

    /// The suite's name.
    pub closed spec fn name_text(self) -> Seq<char> {
        self.name@
    }

    /// Validates `to` as a suite name.
    pub fn check(to: &str) -> (r: Result<TargetSuite, FieldError>)
        ensures
            r is Ok <==> field_problem(to@) is None,
            r matches Ok(t) ==> t.name_text() == to@,
            r matches Err(e) ==> {
                &&& e.kind@ == "suite"@
                &&& e.value@ == to@
                &&& Some(e.problem) == field_problem(to@)
            },
    {
        match validate_field("suite", to) {
            Err(e) => Err(e),
            Ok(()) => Ok(TargetSuite { name: String::from_str(to) }),
        }
    }

    /// Copies every entry of package `name` in suite `from` into this suite,
    /// each superseding whatever occupies its new slot, and records the suite
    /// in the configuration. Returns whether the configuration changed.
    /// Refused, with index and configuration unchanged, when there is nothing
    /// to copy.
    pub fn promote(&self, db: &mut Vec<Entry>, cfg: &mut Config, name: &str, from: &str) -> (r: Result<bool, PromoteError>)
        ensures
            ({
                let src = entries(old(db)@).filter(promote_from(name@, from@));
                &&& (r is Err <==> src.len() == 0)
                &&& r is Err ==> final(db)@ == old(db)@ && final(cfg)@ == old(cfg)@
                &&& r matches Ok(changed) ==> {
                    &&& field_problem(self.name_text()) is None
                    &&& entries(final(db)@) == promote_spec(entries(old(db)@), src, self.name_text())
                    &&& final(cfg)@ == (ConfigView {
                        suites: with_name(old(cfg)@.suites, self.name_text()),
                        ..old(cfg)@
                    })
                    &&& changed == !old(cfg)@.suites.contains(self.name_text())
                }
            }),
    {
        proof {
            use_type_invariant(self);
        }
        match promote_entries(db, name, from, self.name.as_str()) {
            Err(e) => Err(e),
            Ok(_) => {
                let changed = add_name(&mut cfg.suites, self.name.as_str());
                Ok(changed)
            },
        }
    }
}

} // verus!

verus! {

/// How many times `x` occurs in `s`.
pub open spec fn occurrences(s: Seq<EntryView>, x: EntryView) -> nat
    decreases s.len(),
{
    if s.len() == 0 {
        0
    } else {
        occurrences(s.drop_last(), x) + if s.last() == x { 1nat } else { 0nat }
    }
}

proof fn lemma_occurrences_push(s: Seq<EntryView>, y: EntryView, x: EntryView)
    ensures
        occurrences(s.push(y), x) == occurrences(s, x) + if y == x { 1nat } else { 0nat },
{
    assert(s.push(y).drop_last() == s);
}

proof fn lemma_occurrences_filter(s: Seq<EntryView>, p: spec_fn(EntryView) -> bool, x: EntryView)
    ensures
        occurrences(s.filter(p), x) == if p(x) { occurrences(s, x) } else { 0 },
    decreases s.len(),
{
    reveal(Seq::filter);
    if s.len() > 0 {
        lemma_occurrences_filter(s.drop_last(), p, x);
        assert(s == s.drop_last().push(s.last()));
        s.drop_last().lemma_filter_push(s.last(), p);
        lemma_occurrences_push(s.drop_last().filter(p), s.last(), x);
    } else {
        assert(s.filter(p) =~= Seq::<EntryView>::empty());
    }
}

/// Adding `e` keeps every entry that differs from `e` in id, version, arch,
/// suite or component, exactly as many times as the index held it.
pub proof fn law_insert_keeps_other_slots(db: Seq<EntryView>, e: EntryView, x: EntryView)
    requires
        x.name != e.name || x.version != e.version || x.arch != e.arch || x.suite != e.suite
            || x.component != e.component,
    ensures
        occurrences(insert_spec(db, e), x) == occurrences(db, x),
{
    lemma_occurrences_filter(db, outside_slot_of(e), x);
    lemma_occurrences_push(db.filter(outside_slot_of(e)), e, x);
}

/// `remove` takes out exactly the entries of package `name` that are of
/// `version` and of `suite`, each where given: every occurrence of such an
/// entry leaves the index, and every other entry (another package, another
/// named version, another named suite) stays, as often as it was there.
pub proof fn law_remove_selects(
    db: Seq<EntryView>,
    name: Seq<char>,
    version: Option<Seq<char>>,
    suite: Option<Seq<char>>,
    x: EntryView,
)
    ensures
        ({
            let taken = db.filter(removal_match(name, version, suite));
            let kept = db.filter(negate(removal_match(name, version, suite)));
            let selected = x.name == name && (version is None || version == Some(x.version)) && (
            suite is None || suite == Some(x.suite));
            &&& selected ==> occurrences(taken, x) == occurrences(db, x) && occurrences(kept, x) == 0
            &&& !selected ==> occurrences(taken, x) == 0 && occurrences(kept, x) == occurrences(db, x)
        }),
{
    lemma_occurrences_filter(db, removal_match(name, version, suite), x);
    lemma_occurrences_filter(db, negate(removal_match(name, version, suite)), x);
}

proof fn lemma_promote_copies(base: Seq<EntryView>, d: Seq<EntryView>, name: Seq<char>, from: Seq<char>, to: Seq<char>, i: int)
    requires
        0 <= i < d.len(),
        d[i].name == name,
        d[i].suite == from,
        forall|j: int|
            i < j < d.len() && (#[trigger] d[j]).name == name && d[j].suite == from && d[j].version
                == d[i].version && d[j].arch == d[i].arch && d[j].component == d[i].component
                ==> d[j] == d[i],
    ensures
        promote_spec(base, d.filter(promote_from(name, from)), to).contains(moved(d[i], to)),
    decreases d.len(),
{
    reveal(Seq::filter);
    let p = promote_from(name, from);
    let x = moved(d[i], to);
    let l = d.last();
    assert(d == d.drop_last().push(l));
    d.drop_last().lemma_filter_push(l, p);
    let f = d.filter(p);
    if i == d.len() - 1 {
        assert(f.last() == l);
        assert(f.drop_last() == d.drop_last().filter(p));
        let q = promote_spec(base, f.drop_last(), to);
        assert(insert_spec(q, moved(l, to)).last() == x);
        assert(insert_spec(q, moved(l, to))[insert_spec(q, moved(l, to)).len() - 1] == x);
    } else {
        let d2 = d.drop_last();
        assert(forall|j: int| i < j < d2.len() ==> d2[j] == d[j]);
        lemma_promote_copies(base, d2, name, from, to, i);
        assert(d2[i] == d[i]);
        let q = promote_spec(base, d2.filter(p), to);
        if p(l) {
            assert(f.drop_last() == d2.filter(p));
            assert(f.last() == l);
            let y = moved(l, to);
            if same_slot_spec(x, y) {
                assert(l == d[i]);
                let r = insert_spec(q, y);
                assert(r[r.len() - 1] == x);
            } else {
                let k = choose|k: int| 0 <= k < q.len() && q[k] == x;
                q.lemma_filter_contains(outside_slot_of(y), k);
                let g = q.filter(outside_slot_of(y));
                let k2 = choose|k2: int| 0 <= k2 < g.len() && g[k2] == x;
                assert(insert_spec(q, y)[k2] == x);
            }
        } else {
            assert(f == d2.filter(p));
        }
    }
}

/// Promoting copies every entry of package `name` in suite `from` into suite
/// `to`: the new index holds that entry with its suite set to `to`, unless a
/// later entry of the package in `from`, in the same version, architecture
/// and component, differs from it (that later one then takes the slot).
pub proof fn law_promote_copies_each(db: Seq<EntryView>, name: Seq<char>, from: Seq<char>, to: Seq<char>, i: int)
    requires
        0 <= i < db.len(),
        db[i].name == name,
        db[i].suite == from,
        forall|j: int|
            i < j < db.len() && (#[trigger] db[j]).name == name && db[j].suite == from
                && db[j].version == db[i].version && db[j].arch == db[i].arch && db[j].component
                == db[i].component ==> db[j] == db[i],
    ensures
        promote_spec(db, db.filter(|y: EntryView| y.name == name && y.suite == from), to).contains(
            EntryView { suite: to, ..db[i] },
        ),
{
    lemma_promote_copies(db, db, name, from, to, i);
    assert(promote_from(name, from) =~= (|y: EntryView| y.name == name && y.suite == from));
    assert(moved(db[i], to) == EntryView { suite: to, ..db[i] });
}

} // verus!
