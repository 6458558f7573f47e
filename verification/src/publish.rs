//! The signed metadata of a suite: its `Packages` files and its `Release`.

use vstd::prelude::*;
use crate::text::{string_of, push_str};
use crate::hex::{sha256, sha256_hex, hex_spec, decimal_spec, push_decimal};
use crate::repo::{Config, Entry, EntryView, entries, texts};

verus! {

pub open spec fn nl() -> Seq<char> {
    seq!['\n']
}

/// `label`, `value`, newline.
pub open spec fn field_line(label: Seq<char>, value: Seq<char>) -> Seq<char> {
    label + value + nl()
}

/// A field line, or nothing when the value is empty.
pub open spec fn optional_line(label: Seq<char>, value: Seq<char>) -> Seq<char> {
    if value.len() > 0 {
        field_line(label, value)
    } else {
        Seq::empty()
    }
}

pub open spec fn stanza_head(e: EntryView) -> Seq<char> {
    field_line("Package: "@, e.name) + field_line("Version: "@, e.version) + field_line(
        "Architecture: "@,
        e.arch,
    )
}

pub open spec fn stanza_body(e: EntryView) -> Seq<char> {
    field_line("Filename: "@, e.filename) + field_line("Size: "@, decimal_spec(e.size as nat))
        + field_line("SHA256: "@, e.sha256) + field_line("Display-Name: "@, e.display_name)
        + field_line("Exec: "@, e.exec_path)
}

/// A Debian-style `Packages` stanza: `Package`, `Version`, `Architecture`,
/// `Depends` (left out when empty), `Filename`, `Size`, `SHA256`,
/// `Display-Name`, `Exec`, `Caps` (left out when empty), one per line.
pub open spec fn stanza_spec(e: EntryView) -> Seq<char> {
    stanza_head(e) + optional_line("Depends: "@, e.depends) + stanza_body(e) + optional_line(
        "Caps: "@,
        e.caps,
    )
}

fn push_field(out: &mut Vec<char>, label: &str, value: &String)
    ensures
        final(out)@ == old(out)@ + field_line(label@, value@),
{
    push_str(out, label);
    push_str(out, value.as_str());
    out.push('\n');
    assert(final(out)@ =~= old(out)@ + field_line(label@, value@));
}

fn push_optional(out: &mut Vec<char>, label: &str, value: &String)
    ensures
        final(out)@ == old(out)@ + optional_line(label@, value@),
{
    if !value.as_str().is_empty() {
        push_field(out, label, value);
    } else {
        assert(out@ == out@ + Seq::<char>::empty());
    }
}

fn push_head(out: &mut Vec<char>, e: &Entry)
    ensures
        final(out)@ == old(out)@ + stanza_head(e@),
{
    let ghost start = out@;
    push_field(out, "Package: ", &e.name);
    push_field(out, "Version: ", &e.version);
    push_field(out, "Architecture: ", &e.arch);
    assert(out@ =~= start + stanza_head(e@));
}

fn push_body(out: &mut Vec<char>, e: &Entry)
    ensures
        final(out)@ == old(out)@ + stanza_body(e@),
{
    let ghost start = out@;
    push_field(out, "Filename: ", &e.filename);
    let ghost s1 = out@;
    push_str(out, "Size: ");
    push_decimal(out, e.size);
    out.push('\n');
    assert(out@ =~= s1 + field_line("Size: "@, decimal_spec(e.size as nat)));
    push_field(out, "SHA256: ", &e.sha256);
    push_field(out, "Display-Name: ", &e.display_name);
    push_field(out, "Exec: ", &e.exec_path);
    assert(out@ =~= start + stanza_body(e@));
}

fn push_stanza(out: &mut Vec<char>, e: &Entry)
    ensures
        final(out)@ == old(out)@ + stanza_spec(e@),
{
    let ghost start = out@;
    push_head(out, e);
    push_optional(out, "Depends: ", &e.depends);
    push_body(out, e);
    push_optional(out, "Caps: ", &e.caps);
    assert(out@ =~= start + stanza_spec(e@));
}

/// The `Packages` stanza of an entry.
pub fn packages_stanza(e: &Entry) -> (s: String)
    ensures
        s@ == stanza_spec(e@),
{
    let mut out: Vec<char> = Vec::new();
    push_stanza(&mut out, e);
    assert(out@ == stanza_spec(e@));
    string_of(&out)
}

} // verus!

verus! {

/// The pieces of `list` joined with `sep` (`[String]::join`).
pub open spec fn join_spec(list: Seq<Seq<char>>, sep: Seq<char>) -> Seq<char>
    decreases list.len(),
{
    if list.len() == 0 {
        Seq::empty()
    } else if list.len() == 1 {
        list[0]
    } else {
        join_spec(list.drop_last(), sep) + sep + list.last()
    }
}

fn push_joined(out: &mut Vec<char>, list: &Vec<String>, sep: &str)
    ensures
        final(out)@ == old(out)@ + join_spec(texts(list@), sep@),
{
    let ghost start = out@;
    let ghost t = texts(list@);
    let mut i: usize = 0;
    assert(t.take(0) =~= Seq::<Seq<char>>::empty());
    while i < list.len()
        invariant
            i <= list@.len(),
            t == texts(list@),
            out@ == start + join_spec(t.take(i as int), sep@),
        decreases list.len() - i,
    {
        let ghost before = out@;
        if i > 0 {
            push_str(out, sep);
        }
        push_str(out, list[i].as_str());
        proof {
            assert(t.take(i + 1).drop_last() == t.take(i as int));
            assert(t.take(i + 1).last() == list@[i as int]@);
            if i == 0 {
                assert(t.take(1) =~= seq![list@[0]@]);
                assert(out@ =~= start + join_spec(t.take(i + 1), sep@));
            } else {
                assert(out@ =~= start + join_spec(t.take(i + 1), sep@));
            }
        }
        i = i + 1;
    }
    assert(t.take(list@.len() as int) == t);
}

/// One `Packages` reference of a `Release`: relative path, size, SHA-256.
pub open spec fn ref_view(r: (String, u64, String)) -> (Seq<char>, u64, Seq<char>) {
    (r.0@, r.1, r.2@)
}

/// ` <sha256> <size> <path>` and a newline.
pub open spec fn ref_line(r: (Seq<char>, u64, Seq<char>)) -> Seq<char> {
    seq![' '] + r.2 + seq![' '] + decimal_spec(r.1 as nat) + seq![' '] + r.0 + nl()
}

pub open spec fn ref_lines(refs: Seq<(Seq<char>, u64, Seq<char>)>) -> Seq<char>
    decreases refs.len(),
{
    if refs.len() == 0 {
        Seq::empty()
    } else {
        ref_lines(refs.drop_last()) + ref_line(refs.last())
    }
}

/// A `Release` file: origin, suite (twice, as `Suite` and `Codename`), the
/// architectures and components joined by spaces, the date, then one
/// `SHA256` line per `Packages` file.
pub open spec fn release_spec(
    origin: Seq<char>,
    architectures: Seq<Seq<char>>,
    components: Seq<Seq<char>>,
    suite: Seq<char>,
    refs: Seq<(Seq<char>, u64, Seq<char>)>,
    date: Seq<char>,
) -> Seq<char> {
    field_line("Origin: "@, origin) + field_line("Suite: "@, suite) + field_line("Codename: "@, suite)
        + field_line("Architectures: "@, join_spec(architectures, " "@)) + field_line(
        "Components: "@,
        join_spec(components, " "@),
    ) + field_line("Date: "@, date) + "SHA256:\n"@ + ref_lines(refs)
}

fn push_ref_lines(out: &mut Vec<char>, packages: &[(String, u64, String)])
    ensures
        final(out)@ == old(out)@ + ref_lines(packages@.map_values(|r: (String, u64, String)| ref_view(r))),
{
    let ghost start = out@;
    let ghost refs = packages@.map_values(|r: (String, u64, String)| ref_view(r));
    assert(refs.take(0) =~= Seq::<(Seq<char>, u64, Seq<char>)>::empty());
    for i in 0..packages.len()
        invariant
            refs == packages@.map_values(|r: (String, u64, String)| ref_view(r)),
            out@ == start + ref_lines(refs.take(i as int)),
    {
        let ghost before = out@;
        out.push(' ');
        push_str(out, packages[i].2.as_str());
        out.push(' ');
        push_decimal(out, packages[i].1);
        out.push(' ');
        push_str(out, packages[i].0.as_str());
        out.push('\n');
        proof {
            assert(refs.take(i + 1).drop_last() == refs.take(i as int));
            assert(refs.take(i + 1).last() == ref_view(packages@[i as int]));
            assert(out@ =~= before + ref_line(ref_view(packages@[i as int])));
        }
    }
    assert(refs.take(packages@.len() as int) == refs);
}

fn push_line(out: &mut Vec<char>, label: &str, value: &str)
    ensures
        final(out)@ == old(out)@ + field_line(label@, value@),
{
    push_str(out, label);
    push_str(out, value);
    out.push('\n');
    assert(final(out)@ =~= old(out)@ + field_line(label@, value@));
}

/// The `Release` text of `suite`, given the references to its `Packages`
/// files and the publication date.
pub fn build_release(cfg: &Config, suite: &str, packages: &[(String, u64, String)], date: &str) -> (s: String)
    ensures
        s@ == release_spec(
            cfg@.origin,
            cfg@.architectures,
            cfg@.components,
            suite@,
            packages@.map_values(|r: (String, u64, String)| ref_view(r)),
            date@,
        ),
{
    let mut out: Vec<char> = Vec::new();
    push_line(&mut out, "Origin: ", cfg.origin.as_str());
    push_line(&mut out, "Suite: ", suite);
    push_line(&mut out, "Codename: ", suite);
    let ghost s1 = out@;
    push_str(&mut out, "Architectures: ");
    push_joined(&mut out, &cfg.architectures, " ");
    out.push('\n');
    assert(out@ =~= s1 + field_line("Architectures: "@, join_spec(cfg@.architectures, " "@)));
    let ghost s2 = out@;
    push_str(&mut out, "Components: ");
    push_joined(&mut out, &cfg.components, " ");
    out.push('\n');
    assert(out@ =~= s2 + field_line("Components: "@, join_spec(cfg@.components, " "@)));
    push_line(&mut out, "Date: ", date);
    push_str(&mut out, "SHA256:\n");
    push_ref_lines(&mut out, packages);
    assert(out@ =~= release_spec(
        cfg@.origin,
        cfg@.architectures,
        cfg@.components,
        suite@,
        packages@.map_values(|r: (String, u64, String)| ref_view(r)),
        date@,
    ));
    string_of(&out)
}

} // verus!

verus! {

/// The entries of one suite.
pub open spec fn in_suite(suite: Seq<char>) -> spec_fn(EntryView) -> bool {
    |e: EntryView| e.suite == suite
}

/// The entries of one suite, component and architecture.
pub open spec fn in_slot(suite: Seq<char>, comp: Seq<char>, arch: Seq<char>) -> spec_fn(EntryView) -> bool {
    |e: EntryView| e.suite == suite && e.component == comp && e.arch == arch
}

/// A `Packages` file: each stanza followed by a blank line.
pub open spec fn body_spec(es: Seq<EntryView>) -> Seq<char>
    decreases es.len(),
{
    if es.len() == 0 {
        Seq::empty()
    } else {
        body_spec(es.drop_last()) + stanza_spec(es.last()) + nl()
    }
}

/// `<comp>/binary-<arch>/Packages`.
pub open spec fn rel_spec(comp: Seq<char>, arch: Seq<char>) -> Seq<char> {
    comp + "/binary-"@ + arch + "/Packages"@
}

/// The `Packages` files of one component, one per architecture that has
/// entries, in the configured order.
pub open spec fn arch_files(db: Seq<EntryView>, suite: Seq<char>, comp: Seq<char>, arches: Seq<Seq<char>>) -> Seq<(Seq<char>, Seq<char>)>
    decreases arches.len(),
{
    if arches.len() == 0 {
        Seq::empty()
    } else {
        let rest = arch_files(db, suite, comp, arches.drop_last());
        let es = db.filter(in_slot(suite, comp, arches.last()));
        if es.len() > 0 {
            rest.push((rel_spec(comp, arches.last()), body_spec(es)))
        } else {
            rest
        }
    }
}

/// The `Packages` files of a suite: components in order, and within each the
/// architectures in order, skipping the pairs without entries.
pub open spec fn suite_files(db: Seq<EntryView>, suite: Seq<char>, comps: Seq<Seq<char>>, arches: Seq<Seq<char>>) -> Seq<(Seq<char>, Seq<char>)>
    decreases comps.len(),
{
    if comps.len() == 0 {
        Seq::empty()
    } else {
        suite_files(db, suite, comps.drop_last(), arches) + arch_files(db, suite, comps.last(), arches)
    }
}

/// What the `Release` records of a `Packages` file: its path, the length of
/// its UTF-8 encoding and the hex SHA-256 of that encoding.
pub open spec fn file_ref(f: (Seq<char>, Seq<char>)) -> (Seq<char>, u64, Seq<char>) {
    (f.0, vstd::utf8::encode_utf8(f.1).len() as u64, hex_spec(sha256(vstd::utf8::encode_utf8(f.1))))
}

/// One `Packages` file of a suite, relative to the suite's directory.
pub struct PackagesFile {
    pub rel: String,
    pub body: String,
}

pub open spec fn file_view(f: PackagesFile) -> (Seq<char>, Seq<char>) {
    (f.rel@, f.body@)
}

/// Everything that publishing a suite writes, but the signature.
pub struct SuiteIndex {
    pub files: Vec<PackagesFile>,
    pub release: String,
    /// How many entries the suite has.
    pub entry_count: usize,
}

fn packages_body(db: &Vec<Entry>, suite: &String, comp: &String, arch: &String) -> (r: (String, bool))
    ensures
        r.0@ == body_spec(entries(db@).filter(in_slot(suite@, comp@, arch@))),
        r.1 == (entries(db@).filter(in_slot(suite@, comp@, arch@)).len() > 0),
{
    let ghost p = in_slot(suite@, comp@, arch@);
    let ghost all = entries(db@);
    let mut out: Vec<char> = Vec::new();
    let mut any = false;
    let mut i: usize = 0;
    assert(all.take(0) =~= Seq::<EntryView>::empty());
    while i < db.len()
        invariant
            i <= db@.len(),
            all == entries(db@),
            p == in_slot(suite@, comp@, arch@),
            out@ == body_spec(all.take(i as int).filter(p)),
            any == (all.take(i as int).filter(p).len() > 0),
        decreases db.len() - i,
    {
        proof {
            assert(all.take(i + 1) == all.take(i as int).push(all[i as int]));
            all.take(i as int).lemma_filter_push(all[i as int], p);
        }
        if db[i].suite == *suite && db[i].component == *comp && db[i].arch == *arch {
            push_stanza(&mut out, &db[i]);
            out.push('\n');
            any = true;
            proof {
                let f = all.take(i as int).filter(p).push(all[i as int]);
                assert(f.drop_last() == all.take(i as int).filter(p));
            }
        }
        i = i + 1;
    }
    assert(all.take(all.len() as int) == all);
    (string_of(&out), any)
}

fn rel_path(comp: &String, arch: &String) -> (r: String)
    ensures
        r@ == rel_spec(comp@, arch@),
{
    let mut out: Vec<char> = Vec::new();
    push_str(&mut out, comp.as_str());
    push_str(&mut out, "/binary-");
    push_str(&mut out, arch.as_str());
    push_str(&mut out, "/Packages");
    assert(out@ =~= rel_spec(comp@, arch@));
    string_of(&out)
}

/// The `Packages` files and the `Release` of `suite`, with the date to record
/// in it.
pub fn publish_suite(cfg: &Config, db: &Vec<Entry>, suite: &str, date: &str) -> (r: SuiteIndex)
    ensures
        r.files@.map_values(|f: PackagesFile| file_view(f)) == suite_files(
            entries(db@),
            suite@,
            cfg@.components,
            cfg@.architectures,
        ),
        r.release@ == release_spec(
            cfg@.origin,
            cfg@.architectures,
            cfg@.components,
            suite@,
            suite_files(entries(db@), suite@, cfg@.components, cfg@.architectures).map_values(
                |f: (Seq<char>, Seq<char>)| file_ref(f),
            ),
            date@,
        ),
        r.entry_count == entries(db@).filter(in_suite(suite@)).len(),
{
    let suite_s = String::from_str(suite);
    let ghost all = entries(db@);
    let ghost comps = cfg@.components;
    let ghost arches = cfg@.architectures;
    let mut files: Vec<PackagesFile> = Vec::new();
    let mut refs: Vec<(String, u64, String)> = Vec::new();
    let mut ci: usize = 0;
    assert(comps.take(0) =~= Seq::<Seq<char>>::empty());
    while ci < cfg.components.len()
        invariant
            ci <= cfg@.components.len(),
            all == entries(db@),
            comps == cfg@.components,
            arches == cfg@.architectures,
            suite_s@ == suite@,
            files@.map_values(|f: PackagesFile| file_view(f)) == suite_files(all, suite@, comps.take(ci as int), arches),
            refs@.map_values(|r: (String, u64, String)| ref_view(r)) == files@.map_values(
                |f: PackagesFile| file_view(f),
            ).map_values(|f: (Seq<char>, Seq<char>)| file_ref(f)),
        decreases cfg.components.len() - ci,
    {
        let comp = &cfg.components[ci];
        let ghost base = files@.map_values(|f: PackagesFile| file_view(f));
        let mut ai: usize = 0;
        assert(arches.take(0) =~= Seq::<Seq<char>>::empty());
        assert(base + arch_files(all, suite@, comp@, arches.take(0)) == base);
        while ai < cfg.architectures.len()
            invariant
                ai <= cfg@.architectures.len(),
                all == entries(db@),
                arches == cfg@.architectures,
                suite_s@ == suite@,
                comp@ == comps[ci as int],
                files@.map_values(|f: PackagesFile| file_view(f)) == base + arch_files(
                    all,
                    suite@,
                    comp@,
                    arches.take(ai as int),
                ),
                refs@.map_values(|r: (String, u64, String)| ref_view(r)) == files@.map_values(
                    |f: PackagesFile| file_view(f),
                ).map_values(|f: (Seq<char>, Seq<char>)| file_ref(f)),
            decreases cfg.architectures.len() - ai,
        {
            let arch = &cfg.architectures[ai];
            let (body, any) = packages_body(db, &suite_s, comp, arch);
            proof {
                assert(arches.take(ai + 1).drop_last() == arches.take(ai as int));
                assert(arches.take(ai + 1).last() == arch@);
            }
            if any {
                let rel = rel_path(comp, arch);
                let bytes = body.as_str().as_bytes();
                let size = bytes.len() as u64;
                let sha = sha256_hex(bytes);
                let ghost fv = (rel@, body@);
                proof {
                    assert(bytes@ == vstd::utf8::encode_utf8(body@));
                }
                let ghost old_files = files@;
                let ghost old_refs = refs@;
                refs.push((rel.clone(), size, sha));
                files.push(PackagesFile { rel, body });
                proof {
                    assert(files@.map_values(|f: PackagesFile| file_view(f)) =~= old_files.map_values(
                        |f: PackagesFile| file_view(f),
                    ).push(fv));
                    assert(refs@.map_values(|r: (String, u64, String)| ref_view(r)) =~= old_refs.map_values(
                        |r: (String, u64, String)| ref_view(r),
                    ).push(file_ref(fv)));
                    assert(files@.map_values(|f: PackagesFile| file_view(f)).map_values(
                        |f: (Seq<char>, Seq<char>)| file_ref(f),
                    ) =~= old_files.map_values(|f: PackagesFile| file_view(f)).map_values(
                        |f: (Seq<char>, Seq<char>)| file_ref(f),
                    ).push(file_ref(fv)));
                }
            }
            ai = ai + 1;
        }
        proof {
            assert(arches.take(arches.len() as int) == arches);
            assert(comps.take(ci + 1).drop_last() == comps.take(ci as int));
            assert(comps.take(ci + 1).last() == comp@);
        }
        ci = ci + 1;
    }
    assert(comps.take(comps.len() as int) == comps);
    let release = build_release(cfg, suite, refs.as_slice(), date);
    let mut count: usize = 0;
    let mut k: usize = 0;
    assert(all.take(0) =~= Seq::<EntryView>::empty());
    while k < db.len()
        invariant
            k <= db@.len(),
            all == entries(db@),
            suite_s@ == suite@,
            count == all.take(k as int).filter(in_suite(suite@)).len(),
        decreases db.len() - k,
    {
        proof {
            assert(all.take(k + 1) == all.take(k as int).push(all[k as int]));
            all.take(k as int).lemma_filter_push(all[k as int], in_suite(suite@));
            all.take(k as int).lemma_filter_len(in_suite(suite@));
        }
        if db[k].suite == suite_s {
            count = count + 1;
        }
        k = k + 1;
    }
    assert(all.take(all.len() as int) == all);
    SuiteIndex { files, release, entry_count: count }
}

} // verus!

verus! {

proof fn lemma_arch_files_from_slots(db: Seq<EntryView>, suite: Seq<char>, c: Seq<char>, arches: Seq<Seq<char>>, k: int)
    requires
        0 <= k < arch_files(db, suite, c, arches).len(),
    ensures
        exists|a: Seq<char>|
            #![trigger arches.contains(a)]
            arches.contains(a) && db.filter(in_slot(suite, c, a)).len() > 0 && arch_files(
                db,
                suite,
                c,
                arches,
            )[k] == (rel_spec(c, a), body_spec(db.filter(in_slot(suite, c, a)))),
    decreases arches.len(),
{
    let rest = arch_files(db, suite, c, arches.drop_last());
    let a = arches.last();
    if k < rest.len() {
        lemma_arch_files_from_slots(db, suite, c, arches.drop_last(), k);
        let a2 = choose|a2: Seq<char>|
            #![trigger arches.drop_last().contains(a2)]
            arches.drop_last().contains(a2) && db.filter(in_slot(suite, c, a2)).len() > 0 && rest[k]
                == (rel_spec(c, a2), body_spec(db.filter(in_slot(suite, c, a2))));
        let j = choose|j: int| 0 <= j < arches.drop_last().len() && arches.drop_last()[j] == a2;
        assert(arches[j] == a2);
        assert(arches.contains(a2));
    } else {
        assert(arches[arches.len() - 1] == a);
        assert(arches.contains(a));
    }
}

proof fn lemma_suite_files_from_slots(
    db: Seq<EntryView>,
    suite: Seq<char>,
    comps: Seq<Seq<char>>,
    arches: Seq<Seq<char>>,
    k: int,
)
    requires
        0 <= k < suite_files(db, suite, comps, arches).len(),
    ensures
        exists|c: Seq<char>, a: Seq<char>|
            #![trigger comps.contains(c), arches.contains(a)]
            comps.contains(c) && arches.contains(a) && db.filter(in_slot(suite, c, a)).len() > 0
                && suite_files(db, suite, comps, arches)[k] == (rel_spec(c, a), body_spec(
                db.filter(in_slot(suite, c, a)),
            )),
    decreases comps.len(),
{
    let first = suite_files(db, suite, comps.drop_last(), arches);
    let c = comps.last();
    let tail = arch_files(db, suite, c, arches);
    assert(suite_files(db, suite, comps, arches) == first + tail);
    if k < first.len() {
        lemma_suite_files_from_slots(db, suite, comps.drop_last(), arches, k);
        let (c2, a2) = choose|c2: Seq<char>, a2: Seq<char>|
            #![trigger comps.drop_last().contains(c2), arches.contains(a2)]
            comps.drop_last().contains(c2) && arches.contains(a2) && db.filter(in_slot(suite, c2, a2)).len() > 0
                && first[k] == (rel_spec(c2, a2), body_spec(db.filter(in_slot(suite, c2, a2))));
        let j = choose|j: int| 0 <= j < comps.drop_last().len() && comps.drop_last()[j] == c2;
        assert(comps[j] == c2);
        assert(comps.contains(c2));
    } else {
        lemma_arch_files_from_slots(db, suite, c, arches, k - first.len());
        assert(comps[comps.len() - 1] == c);
        assert(comps.contains(c));
    }
}

proof fn lemma_arch_files_cover(db: Seq<EntryView>, suite: Seq<char>, c: Seq<char>, arches: Seq<Seq<char>>, a: Seq<char>)
    requires
        arches.contains(a),
        db.filter(in_slot(suite, c, a)).len() > 0,
    ensures
        arch_files(db, suite, c, arches).contains((rel_spec(c, a), body_spec(db.filter(in_slot(suite, c, a))))),
    decreases arches.len(),
{
    let rest = arch_files(db, suite, c, arches.drop_last());
    let f = (rel_spec(c, a), body_spec(db.filter(in_slot(suite, c, a))));
    if arches.last() == a {
        let r = rest.push(f);
        assert(r[r.len() - 1] == f);
    } else {
        let j = choose|j: int| 0 <= j < arches.len() && arches[j] == a;
        assert(arches.drop_last()[j] == a);
        lemma_arch_files_cover(db, suite, c, arches.drop_last(), a);
        let k = choose|k: int| 0 <= k < rest.len() && rest[k] == f;
        let es = db.filter(in_slot(suite, c, arches.last()));
        if es.len() > 0 {
            assert(rest.push((rel_spec(c, arches.last()), body_spec(es)))[k] == f);
        }
    }
}

proof fn lemma_suite_files_cover(
    db: Seq<EntryView>,
    suite: Seq<char>,
    comps: Seq<Seq<char>>,
    arches: Seq<Seq<char>>,
    c: Seq<char>,
    a: Seq<char>,
)
    requires
        comps.contains(c),
        arches.contains(a),
        db.filter(in_slot(suite, c, a)).len() > 0,
    ensures
        suite_files(db, suite, comps, arches).contains(
            (rel_spec(c, a), body_spec(db.filter(in_slot(suite, c, a)))),
        ),
    decreases comps.len(),
{
    let first = suite_files(db, suite, comps.drop_last(), arches);
    let tail = arch_files(db, suite, comps.last(), arches);
    let f = (rel_spec(c, a), body_spec(db.filter(in_slot(suite, c, a))));
    assert(suite_files(db, suite, comps, arches) == first + tail);
    if comps.last() == c {
        lemma_arch_files_cover(db, suite, c, arches, a);
        let k = choose|k: int| 0 <= k < tail.len() && tail[k] == f;
        assert((first + tail)[first.len() + k] == f);
    } else {
        let j = choose|j: int| 0 <= j < comps.len() && comps[j] == c;
        assert(comps.drop_last()[j] == c);
        lemma_suite_files_cover(db, suite, comps.drop_last(), arches, c, a);
        let k = choose|k: int| 0 <= k < first.len() && first[k] == f;
        assert((first + tail)[k] == f);
    }
}

/// Every `Packages` file of a suite is `<comp>/binary-<arch>/Packages` for a
/// configured component `comp` and architecture `arch`, and holds the stanzas
/// of exactly those entries of the suite whose component is `comp` and whose
/// architecture is `arch` (at least one), in index order, each followed by a
/// blank line.
pub proof fn law_packages_file_holds_its_slot(
    db: Seq<EntryView>,
    suite: Seq<char>,
    comps: Seq<Seq<char>>,
    arches: Seq<Seq<char>>,
    k: int,
)
    requires
        0 <= k < suite_files(db, suite, comps, arches).len(),
    ensures
        exists|comp: Seq<char>, arch: Seq<char>|
            #![trigger comps.contains(comp), arches.contains(arch)]
            {
                let es = db.filter(
                    |e: EntryView| e.suite == suite && e.component == comp && e.arch == arch,
                );
                &&& comps.contains(comp)
                &&& arches.contains(arch)
                &&& es.len() > 0
                &&& suite_files(db, suite, comps, arches)[k] == (
                    comp + "/binary-"@ + arch + "/Packages"@,
                    body_spec(es),
                )
            },
{
    lemma_suite_files_from_slots(db, suite, comps, arches, k);
    let (c, a) = choose|c: Seq<char>, a: Seq<char>|
        #![trigger comps.contains(c), arches.contains(a)]
        comps.contains(c) && arches.contains(a) && db.filter(in_slot(suite, c, a)).len() > 0
            && suite_files(db, suite, comps, arches)[k] == (rel_spec(c, a), body_spec(
            db.filter(in_slot(suite, c, a)),
        ));
    assert(in_slot(suite, c, a) =~= (|e: EntryView| e.suite == suite && e.component == c && e.arch == a));
}

/// Every configured component and architecture for which the suite has
/// entries gets its `Packages` file, holding exactly those entries' stanzas.
pub proof fn law_every_slot_is_published(
    db: Seq<EntryView>,
    suite: Seq<char>,
    comps: Seq<Seq<char>>,
    arches: Seq<Seq<char>>,
    comp: Seq<char>,
    arch: Seq<char>,
)
    requires
        comps.contains(comp),
        arches.contains(arch),
        db.filter(|e: EntryView| e.suite == suite && e.component == comp && e.arch == arch).len() > 0,
    ensures
        suite_files(db, suite, comps, arches).contains(
            (
                comp + "/binary-"@ + arch + "/Packages"@,
                body_spec(
                    db.filter(|e: EntryView| e.suite == suite && e.component == comp && e.arch == arch),
                ),
            ),
        ),
{
    assert(in_slot(suite, comp, arch) =~= (|e: EntryView| e.suite == suite && e.component == comp && e.arch == arch));
    lemma_suite_files_cover(db, suite, comps, arches, comp, arch);
}

} // verus!
