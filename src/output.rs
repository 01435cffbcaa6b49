//! Rendering of entry names as the lines of the listing.
use crate::record::{entries_view, DirEntry};
use vstd::prelude::*;
use vstd::string::{is_ascii_spec_bytes, StringSliceAdditionalSpecFns};
use vstd::utf8::valid_utf8;

verus! {

/// The line terminator of the listing.
pub const NEWLINE: u8 = 0x0a;

/// Byte that stands in for each non-ASCII byte of a name that is not UTF-8.
pub const REPLACEMENT: u8 = 0x3f;

/// Appends the bytes of `b` to `out`.
pub fn push_bytes(out: &mut Vec<u8>, b: &[u8])
    ensures
        final(out)@ == old(out)@ + b@,
{
    let mut i: usize = 0;
    while i < b.len()
        invariant
            i <= b@.len(),
            out@ == old(out)@ + b@.subrange(0, i as int),
        decreases b@.len() - i,
    {
        out.push(b[i]);
        i = i + 1;
        assert(out@ =~= old(out)@ + b@.subrange(0, i as int));
    }
    assert(b@.subrange(0, i as int) =~= b@);
}

/// How a name appears in the listing: as it is when it is UTF-8, else with
/// every non-ASCII byte replaced.
pub open spec fn shown_name(name: Seq<u8>) -> Seq<u8> {
    if valid_utf8(name) {
        name
    } else {
        name.map_values(|b: u8| if b < 0x80 { b } else { REPLACEMENT })
    }
}

/// The line that the listing holds for one name.
pub open spec fn line_of(name: Seq<u8>) -> Seq<u8> {
    shown_name(name) + seq![NEWLINE]
}

/// The listing of the given entries: one line each, in order.
pub open spec fn listing_text(es: Seq<(i32, Seq<u8>)>) -> Seq<u8>
    decreases es.len(),
{
    if es.len() == 0 {
        seq![]
    } else {
        listing_text(es.drop_last()) + line_of(es.last().1)
    }
}

/// Relies on std::str::from_utf8: it accepts exactly the well-formed UTF-8
/// byte sequences and hands back a text with those same bytes.
#[verifier::external_body]
fn as_text(b: &[u8]) -> (r: Option<&str>)
    ensures
        r is Some <==> valid_utf8(b@),
        r matches Some(t) ==> t.spec_bytes() == b@,
{
    std::str::from_utf8(b).ok()
}

/// Appends the bytes of `s` to `out`.
pub fn print(out: &mut Vec<u8>, s: &str)
    ensures
        final(out)@ == old(out)@ + s.spec_bytes(),
{
    push_bytes(out, s.as_bytes());
}

/// Appends the bytes of `s` and a line terminator to `out`.
pub fn println(out: &mut Vec<u8>, s: &str)
    ensures
        final(out)@ == old(out)@ + s.spec_bytes() + seq![NEWLINE],
{
    print(out, s);
    let nl = "\n";
    proof {
        reveal_strlit("\n");
        assert(vstd::string::is_ascii(nl));
        is_ascii_spec_bytes(nl);
        assert(nl.spec_bytes() =~= seq![NEWLINE]);
    }
    print(out, nl);
}

/// Appends the listing line of one name to `out`.
pub fn emit_name(out: &mut Vec<u8>, name: &[u8])
    ensures
        final(out)@ == old(out)@ + line_of(name@),
{
    match as_text(name) {
        Some(text) => println(out, text),
        None => {
            let mut i: usize = 0;
            while i < name.len()
                invariant
                    i <= name@.len(),
                    !valid_utf8(name@),
                    out@ == old(out)@ + shown_name(name@).subrange(0, i as int),
                decreases name@.len() - i,
            {
                let b = name[i];
                if b < 0x80 {
                    out.push(b);
                } else {
                    out.push(REPLACEMENT);
                }
                i = i + 1;
                assert(out@ =~= old(out)@ + shown_name(name@).subrange(0, i as int));
            }
            assert(shown_name(name@).subrange(0, i as int) =~= shown_name(name@));
            out.push(NEWLINE);
            assert(out@ =~= old(out)@ + line_of(name@));
        },
    }
}

/// The listing of the given entries: each shown name on a line of its own,
/// in the order of the entries.
pub fn render_entries(entries: &Vec<DirEntry>) -> (r: Vec<u8>)
    ensures
        r@ == listing_text(entries_view(entries@)),
{
    let mut out: Vec<u8> = Vec::new();
    let mut i: usize = 0;
    assert(entries_view(entries@).take(0) =~= seq![]);
    while i < entries.len()
        invariant
            i <= entries@.len(),
            out@ == listing_text(entries_view(entries@).take(i as int)),
        decreases entries@.len() - i,
    {
        emit_name(&mut out, entries[i].name.as_slice());
        proof {
            let es = entries_view(entries@);
            assert(es.take(i + 1).drop_last() =~= es.take(i as int));
        }
        i = i + 1;
    }
    assert(entries_view(entries@).take(i as int) =~= entries_view(entries@));
    out
}

} // verus!
