//! Exporting the public trust anchor: as hex, or as a C header for herald.

use vstd::prelude::*;
use crate::text::{chars_of, string_of, copy_range, trim, trim_bounds, push_str};
use crate::hex::{hex_spec, hex_alphabet, hex_digit_char, unhex, unhex_spec, UnhexError};
use crate::publish::nl;

verus! {

/// Length of an uncompressed P-256 public point (`0x04 || X || Y`).
pub const PUBKEY_LEN: usize = 65;

/// One byte in the header's array: `0x`, two hex digits, a comma.
pub open spec fn byte_item(b: u8) -> Seq<char> {
    seq!['0', 'x'] + hex_spec(seq![b]) + seq![',']
}

pub open spec fn items(b: Seq<u8>) -> Seq<char>
    decreases b.len(),
{
    if b.len() == 0 {
        Seq::empty()
    } else {
        items(b.drop_last()) + byte_item(b.last())
    }
}

/// The array's rows: twelve bytes per row, indented by four spaces.
pub open spec fn rows(b: Seq<u8>) -> Seq<char>
    decreases b.len(),
{
    if b.len() == 0 {
        Seq::empty()
    } else if b.len() <= 12 {
        "    "@ + items(b) + nl()
    } else {
        "    "@ + items(b.take(12)) + nl() + rows(b.skip(12))
    }
}

/// The C header that pins the trust anchor in herald.
pub open spec fn header_spec(b: Seq<u8>) -> Seq<char> {
    "/* GENERATED by `chancery key --header` — repository trust anchor. */\n"@
        + "#ifndef HERALD_TRUSTED_KEY_H\n"@ + "#define HERALD_TRUSTED_KEY_H\n"@
        + "static const unsigned char herald_trusted_key[65] = {\n"@ + rows(b) + "};\n"@
        + "#endif\n"@
}

/// Why the trust anchor could not be exported.
#[derive(Debug, Clone, Copy, PartialEq, Eq, Structural)]
pub enum AnchorError {
    /// `key.pub` is not hex.
    Hex(UnhexError),
    /// `key.pub` does not decode to `PUBKEY_LEN` bytes; its length.
    WrongLength(usize),
}

/// What `key_export` prints for the contents `s` of `key.pub`.
pub open spec fn export_spec(s: Seq<char>, header: bool) -> Result<Seq<char>, AnchorError> {
    if !header {
        Ok(trim(s) + nl())
    } else {
        match unhex_spec(trim(s)) {
            Err(e) => Err(AnchorError::Hex(e)),
            Ok(b) => if b.len() != 65 {
                Err(AnchorError::WrongLength(b.len() as usize))
            } else {
                Ok(header_spec(b))
            },
        }
    }
}

fn push_item(out: &mut Vec<char>, b: u8)
    ensures
        final(out)@ == old(out)@ + byte_item(b),
{
    out.push('0');
    out.push('x');
    let hi = hex_digit_char(b / 16);
    let lo = hex_digit_char(b % 16);
    out.push(hi);
    out.push(lo);
    out.push(',');
    assert(seq![b].drop_last() =~= Seq::<u8>::empty());
    assert(seq![b].last() == b);
    assert(hex_spec(Seq::<u8>::empty()) == Seq::<char>::empty());
    assert(hex_spec(seq![b]) =~= seq![hex_alphabet()[(b / 16) as int], hex_alphabet()[(b % 16) as int]]);
    assert(final(out)@ =~= old(out)@ + byte_item(b));
}

fn push_row(out: &mut Vec<char>, b: &Vec<u8>, lo: usize, hi: usize)
    requires
        lo <= hi <= b@.len(),
    ensures
        final(out)@ == old(out)@ + "    "@ + items(b@.subrange(lo as int, hi as int)) + nl(),
{
    let ghost start = out@;
    push_str(out, "    ");
    let ghost s1 = out@;
    let mut i = lo;
    assert(b@.subrange(lo as int, lo as int) =~= Seq::<u8>::empty());
    while i < hi
        invariant
            lo <= i <= hi <= b@.len(),
            out@ == s1 + items(b@.subrange(lo as int, i as int)),
        decreases hi - i,
    {
        push_item(out, b[i]);
        assert(b@.subrange(lo as int, i + 1).drop_last() == b@.subrange(lo as int, i as int));
        i = i + 1;
    }
    out.push('\n');
    assert(out@ =~= start + "    "@ + items(b@.subrange(lo as int, hi as int)) + nl());
}

/// The C header text for a public point.
pub fn header_text(b: &Vec<u8>) -> (s: String)
    ensures
        s@ == header_spec(b@),
{
    let mut out: Vec<char> = Vec::new();
    push_str(&mut out, "/* GENERATED by `chancery key --header` — repository trust anchor. */\n");
    push_str(&mut out, "#ifndef HERALD_TRUSTED_KEY_H\n");
    push_str(&mut out, "#define HERALD_TRUSTED_KEY_H\n");
    push_str(&mut out, "static const unsigned char herald_trusted_key[65] = {\n");
    let ghost pre = out@;
    let mut i: usize = 0;
    assert(b@.skip(0) == b@);
    while i < b.len()
        invariant
            i <= b@.len(),
            out@ + rows(b@.skip(i as int)) == pre + rows(b@),
        decreases b.len() - i,
    {
        let ghost rest = b@.skip(i as int);
        let end = if b.len() - i > 12 {
            i + 12
        } else {
            b.len()
        };
        push_row(&mut out, b, i, end);
        proof {
            if rest.len() > 12 {
                assert(rest.take(12) == b@.subrange(i as int, end as int));
                assert(rest.skip(12) == b@.skip(end as int));
            } else {
                assert(rest == b@.subrange(i as int, end as int));
                assert(b@.skip(end as int) =~= Seq::<u8>::empty());
            }
        }
        i = end;
    }
    assert(b@.skip(b@.len() as int) =~= Seq::<u8>::empty());
    push_str(&mut out, "};\n");
    push_str(&mut out, "#endif\n");
    assert(out@ =~= header_spec(b@));
    string_of(&out)
}

/// What `chancery key` prints, given the contents of `key.pub`: the trimmed
/// hex and a newline, or (with `header`) the C header for herald, refused
/// unless the hex decodes to the 65 bytes of a public point.
pub fn key_export(pub_text: &str, header: bool) -> (r: Result<String, AnchorError>)
    ensures
        match r {
            Ok(s) => export_spec(pub_text@, header) == Ok::<Seq<char>, AnchorError>(s@),
            Err(e) => export_spec(pub_text@, header) == Err::<Seq<char>, AnchorError>(e),
        },
{
    let v = chars_of(pub_text);
    let (lo, hi) = trim_bounds(&v, 0, v.len());
    assert(v@.subrange(0, v@.len() as int) == v@);
    let mut t = copy_range(&v, lo, hi);
    if !header {
        t.push('\n');
        assert(t@ =~= trim(pub_text@) + nl());
        return Ok(string_of(&t));
    }
    let ts = string_of(&t);
    let bytes = match unhex(ts.as_str()) {
        Ok(b) => b,
        Err(e) => return Err(AnchorError::Hex(e)),
    };
    proof {
        crate::sign::lemma_trim_trim(pub_text@);
    }
    if bytes.len() != PUBKEY_LEN {
        return Err(AnchorError::WrongLength(bytes.len()));
    }
    Ok(header_text(&bytes))
}

} // verus!
