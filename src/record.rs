//! The packed directory-entry record format.
//!
//! A record is `[4-byte identifier][4-byte record length][name bytes, NUL,
//! padding]`, both header fields little-endian signed 32-bit integers. The
//! record length counts the whole record, header included.
use vstd::bytes::{
    lemma_auto_spec_u32_to_from_le_bytes, spec_u32_from_le_bytes, spec_u32_to_le_bytes,
    u32_from_le_bytes, u32_to_le_bytes,
};
use crate::output::push_bytes;
use vstd::prelude::*;
use vstd::slice::{slice_subrange, slice_to_vec};

verus! {

/// Size of the fixed record header: identifier and record length.
pub const HEADER_SIZE: usize = 8;

/// One decoded directory entry.
#[derive(Clone, Debug, PartialEq, Eq)]
pub struct DirEntry {
    pub ino: i32,
    pub name: Vec<u8>,
}

impl View for DirEntry {
    type V = (i32, Seq<u8>);

    open spec fn view(&self) -> (i32, Seq<u8>) {
        (self.ino, self.name@)
    }
}

/// Why a filled region could not be walked record by record.
#[derive(Clone, Copy, Debug, PartialEq, Eq, Structural)]
pub enum DecodeError {
    /// Fewer bytes remain than a record header needs.
    TruncatedHeader,
    /// The record length is not larger than the header, or runs past the
    /// filled region.
    BadLength,
    /// No NUL byte ends the name inside the record.
    Unterminated,
}

/// The identifier field of the record at the start of `s`.
pub open spec fn ino_field(s: Seq<u8>) -> i32 {
    spec_u32_from_le_bytes(s.subrange(0, 4)) as i32
}

/// The record-length field of the record at the start of `s`.
pub open spec fn len_field(s: Seq<u8>) -> int {
    (spec_u32_from_le_bytes(s.subrange(4, 8)) as i32) as int
}

/// Index of the first zero byte of `s` in `[i, end)`, or `end` if there is none.
pub open spec fn first_zero(s: Seq<u8>, i: int, end: int) -> int
    decreases end - i,
{
    if i >= end {
        end
    } else if s[i] == 0 {
        i
    } else {
        first_zero(s, i + 1, end)
    }
}

/// The entries that a filled region holds, in order, or the first fault met
/// while walking it from the front.
pub open spec fn decode_spec(s: Seq<u8>) -> Result<Seq<(i32, Seq<u8>)>, DecodeError>
    decreases s.len(),
{
    if s.len() == 0 {
        Ok(seq![])
    } else if s.len() < HEADER_SIZE {
        Err(DecodeError::TruncatedHeader)
    } else {
        let len = len_field(s);
        if len <= HEADER_SIZE || len > s.len() {
            Err(DecodeError::BadLength)
        } else {
            let z = first_zero(s, HEADER_SIZE as int, len);
            if z == len {
                Err(DecodeError::Unterminated)
            } else {
                match decode_spec(s.subrange(len, s.len() as int)) {
                    Ok(rest) => Ok(seq![(ino_field(s), s.subrange(HEADER_SIZE as int, z))] + rest),
                    Err(e) => Err(e),
                }
            }
        }
    }
}

/// `prefix` followed by the entries of `r`; an error stays as it is.
pub open spec fn after(prefix: Seq<(i32, Seq<u8>)>, r: Result<Seq<(i32, Seq<u8>)>, DecodeError>) -> Result<
    Seq<(i32, Seq<u8>)>,
    DecodeError,
> {
    match r {
        Ok(rest) => Ok(prefix + rest),
        Err(e) => Err(e),
    }
}

/// The views of a sequence of entries.
pub open spec fn entries_view(v: Seq<DirEntry>) -> Seq<(i32, Seq<u8>)> {
    v.map_values(|e: DirEntry| e@)
}

/// `first_zero` read at an offset into a sequence, or in the sequence cut at
/// that offset, gives the same position.
proof fn lemma_first_zero_shift(s: Seq<u8>, pos: int, i: int, end: int)
    requires
        0 <= pos,
        0 <= i <= end,
        pos + end <= s.len(),
    ensures
        first_zero(s, pos + i, pos + end) == pos + first_zero(
            s.subrange(pos, s.len() as int),
            i,
            end,
        ),
    decreases end - i,
{
    if i < end {
        lemma_first_zero_shift(s, pos, i + 1, end);
    }
}

/// Index of the first zero byte of `b` in `[from, end)`, or `end`.
fn find_zero(b: &[u8], from: usize, end: usize) -> (z: usize)
    requires
        from <= end <= b@.len(),
    ensures
        z as int == first_zero(b@, from as int, end as int),
        from <= z <= end,
{
    let mut i: usize = from;
    while i < end
        invariant
            from <= i <= end <= b@.len(),
            first_zero(b@, from as int, end as int) == first_zero(b@, i as int, end as int),
        decreases end - i,
    {
        if b[i] == 0 {
            return i;
        }
        i = i + 1;
    }
    i
}

/// Walks a filled region record by record and returns its entries in order.
pub fn decode_records(filled: &[u8]) -> (r: Result<Vec<DirEntry>, DecodeError>)
    ensures
        match r {
            Ok(v) => decode_spec(filled@) == Ok::<Seq<(i32, Seq<u8>)>, DecodeError>(
                entries_view(v@),
            ),
            Err(e) => decode_spec(filled@) == Err::<Seq<(i32, Seq<u8>)>, DecodeError>(e),
        },
{
    let n = filled.len();
    let mut out: Vec<DirEntry> = Vec::new();
    let mut pos: usize = 0;
    proof {
        assert(filled@.subrange(0, n as int) =~= filled@);
        assert(entries_view(out@) =~= seq![]);
        if let Ok(t) = decode_spec(filled@) {
            assert(seq![] + t =~= t);
        }
    }
    while pos < n
        invariant
            n == filled@.len(),
            pos <= n,
            decode_spec(filled@) == after(
                entries_view(out@),
                decode_spec(filled@.subrange(pos as int, n as int)),
            ),
        decreases n - pos,
    {
        let ghost rest = filled@.subrange(pos as int, n as int);
        assert(rest.len() > 0);
        if n - pos < HEADER_SIZE {
            return Err(DecodeError::TruncatedHeader);
        }
        let ino = #[verifier::truncate] (u32_from_le_bytes(slice_subrange(filled, pos, pos + 4)) as i32);
        let len = #[verifier::truncate] (u32_from_le_bytes(slice_subrange(filled, pos + 4, pos + 8)) as i32);
        proof {
            assert(rest.subrange(0, 4) =~= filled@.subrange(pos as int, pos + 4));
            assert(rest.subrange(4, 8) =~= filled@.subrange(pos + 4, pos + 8));
        }
        if len <= HEADER_SIZE as i32 || len as usize > n - pos {
            return Err(DecodeError::BadLength);
        }
        let end = pos + len as usize;
        let z = find_zero(filled, pos + HEADER_SIZE, end);
        proof {
            lemma_first_zero_shift(filled@, pos as int, HEADER_SIZE as int, len as int);
        }
        if z == end {
            return Err(DecodeError::Unterminated);
        }
        let name = slice_to_vec(slice_subrange(filled, pos + HEADER_SIZE, z));
        let entry = DirEntry { ino, name };
        proof {
            assert(rest.subrange(len as int, rest.len() as int) =~= filled@.subrange(
                end as int,
                n as int,
            ));
            assert(rest.subrange(HEADER_SIZE as int, z - pos) =~= filled@.subrange(
                pos + HEADER_SIZE,
                z as int,
            ));
        }
        let ghost before = out@;
        out.push(entry);
        proof {
            assert(entries_view(out@) =~= entries_view(before) + seq![entry@]);
            if let Ok(t) = decode_spec(rest.subrange(len as int, rest.len() as int)) {
                assert(entries_view(before) + (seq![entry@] + t) =~= entries_view(out@) + t);
            }
        }
        pos = end;
    }
    Ok(out)
}

/// The bytes of one record as the kernel lays it out: header, name, NUL.
pub open spec fn record_bytes(ino: i32, name: Seq<u8>) -> Seq<u8> {
    spec_u32_to_le_bytes(#[verifier::truncate] (ino as u32)) + spec_u32_to_le_bytes(
        (HEADER_SIZE + name.len() + 1) as u32,
    ) + name + seq![0u8]
}

/// The record stream that holds the given entries in order.
pub open spec fn encode_spec(es: Seq<(i32, Seq<u8>)>) -> Seq<u8>
    decreases es.len(),
{
    if es.len() == 0 {
        seq![]
    } else {
        record_bytes(es[0].0, es[0].1) + encode_spec(es.drop_first())
    }
}

/// A name that a record can carry: its record length fits the signed field.
pub open spec fn fits_record(name: Seq<u8>) -> bool {
    HEADER_SIZE + name.len() + 1 <= i32::MAX
}

/// A name that decodes back as itself: no NUL inside, and it fits a record.
pub open spec fn valid_name(name: Seq<u8>) -> bool {
    &&& fits_record(name)
    &&& forall|i: int| 0 <= i < name.len() ==> name[i] != 0
}

proof fn lemma_encode_push(es: Seq<(i32, Seq<u8>)>, e: (i32, Seq<u8>))
    ensures
        encode_spec(es.push(e)) == encode_spec(es) + record_bytes(e.0, e.1),
    decreases es.len(),
{
    if es.len() == 0 {
        assert(es.push(e).drop_first() =~= seq![]);
        assert(es.push(e)[0] == e);
        assert(encode_spec(es.push(e).drop_first()) =~= seq![]);
        assert(encode_spec(es.push(e)) =~= record_bytes(e.0, e.1));
    } else {
        assert(es.push(e).drop_first() =~= es.drop_first().push(e));
        lemma_encode_push(es.drop_first(), e);
        assert(encode_spec(es.push(e)) =~= encode_spec(es) + record_bytes(e.0, e.1));
    }
}

proof fn lemma_encode_concat(a: Seq<(i32, Seq<u8>)>, b: Seq<(i32, Seq<u8>)>)
    ensures
        encode_spec(a + b) == encode_spec(a) + encode_spec(b),
    decreases a.len(),
{
    if a.len() == 0 {
        assert(a + b =~= b);
        assert(encode_spec(a) + encode_spec(b) =~= encode_spec(b));
    } else {
        assert((a + b).drop_first() =~= a.drop_first() + b);
        lemma_encode_concat(a.drop_first(), b);
        assert(encode_spec(a + b) =~= encode_spec(a) + encode_spec(b));
    }
}

proof fn lemma_encode_prefix_len(es: Seq<(i32, Seq<u8>)>, k: int)
    requires
        0 <= k <= es.len(),
    ensures
        encode_spec(es.take(k)).len() <= encode_spec(es).len(),
{
    assert(es =~= es.take(k) + es.skip(k));
    lemma_encode_concat(es.take(k), es.skip(k));
}

/// Lays the entries out as back-to-back records, each name followed by a
/// NUL and nothing more.
pub fn encode_records(entries: &Vec<DirEntry>) -> (r: Vec<u8>)
    requires
        forall|i: int| 0 <= i < entries@.len() ==> fits_record(#[trigger] entries@[i].name@),
        encode_spec(entries_view(entries@)).len() <= usize::MAX,
    ensures
        r@ == encode_spec(entries_view(entries@)),
{
    let mut out: Vec<u8> = Vec::new();
    let mut i: usize = 0;
    assert(entries_view(entries@).take(0) =~= seq![]);
    while i < entries.len()
        invariant
            i <= entries@.len(),
            forall|k: int| 0 <= k < entries@.len() ==> fits_record(#[trigger] entries@[k].name@),
            encode_spec(entries_view(entries@)).len() <= usize::MAX,
            out@ == encode_spec(entries_view(entries@).take(i as int)),
        decreases entries@.len() - i,
    {
        let e = &entries[i];
        proof {
            let es = entries_view(entries@);
            assert(es.take(i + 1) =~= es.take(i as int).push(e@));
            lemma_encode_push(es.take(i as int), e@);
            lemma_encode_prefix_len(es, i + 1);
        }
        let len = (HEADER_SIZE + e.name.len() + 1) as u32;
        let mut ino_bytes = u32_to_le_bytes(#[verifier::truncate] (e.ino as u32));
        let mut len_bytes = u32_to_le_bytes(len);
        out.append(&mut ino_bytes);
        out.append(&mut len_bytes);
        push_bytes(&mut out, e.name.as_slice());
        out.push(0u8);
        i = i + 1;
        assert(out@ =~= encode_spec(entries_view(entries@).take(i as int)));
    }
    assert(entries_view(entries@).take(i as int) =~= entries_view(entries@));
    out
}

proof fn lemma_first_zero_at(s: Seq<u8>, i: int, z: int, end: int)
    requires
        0 <= i <= z < end <= s.len(),
        s[z] == 0,
        forall|j: int| i <= j < z ==> s[j] != 0,
    ensures
        first_zero(s, i, end) == z,
    decreases z - i,
{
    if i < z {
        lemma_first_zero_at(s, i + 1, z, end);
    }
}

proof fn lemma_cast_round_trip(x: i32, y: u32)
    ensures
        (x as u32) as i32 == x,
        y <= 0x7fff_ffff ==> (y as i32) as int == y as int,
{
    assert((x as u32) as i32 == x) by (bit_vector);
    assert(y <= 0x7fff_ffff ==> (y as i32) as u32 == y && (y as i32) >= 0) by (bit_vector);
}

/// Decoding the record stream of a sequence of entries whose names hold no
/// NUL, and fit a record, gives back the same entries in the same order.
pub proof fn lemma_round_trip(es: Seq<(i32, Seq<u8>)>)
    requires
        forall|i: int| 0 <= i < es.len() ==> valid_name(#[trigger] es[i].1),
    ensures
        decode_spec(encode_spec(es)) == Ok::<Seq<(i32, Seq<u8>)>, DecodeError>(es),
    decreases es.len(),
{
    if es.len() == 0 {
        assert(encode_spec(es) =~= seq![]);
        assert(es =~= seq![]);
    } else {
        let e = es[0];
        assert(valid_name(es[0].1));
        let name = e.1;
        let len = HEADER_SIZE + name.len() + 1;
        let lu = len as u32;
        let t = encode_spec(es.drop_first());
        let s = encode_spec(es);
        lemma_auto_spec_u32_to_from_le_bytes();
        assert(s =~= record_bytes(e.0, name) + t);
        assert(s.subrange(0, 4) =~= spec_u32_to_le_bytes(#[verifier::truncate] (e.0 as u32)));
        assert(s.subrange(4, 8) =~= spec_u32_to_le_bytes(lu));
        lemma_cast_round_trip(e.0, lu);
        assert(ino_field(s) == e.0);
        assert(len_field(s) == len);
        assert forall|j: int| HEADER_SIZE <= j < HEADER_SIZE + name.len() implies s[j] != 0 by {
            assert(s[j] == name[j - HEADER_SIZE]);
        }
        assert(s[len - 1] == 0);
        lemma_first_zero_at(s, HEADER_SIZE as int, len - 1, len);
        assert(s.subrange(len, s.len() as int) =~= t);
        assert(s.subrange(HEADER_SIZE as int, len - 1) =~= name);
        assert forall|i: int| 0 <= i < es.drop_first().len() implies valid_name(
            #[trigger] es.drop_first()[i].1,
        ) by {
            assert(es.drop_first()[i] == es[i + 1]);
        }
        lemma_round_trip(es.drop_first());
        assert(seq![e] + es.drop_first() =~= es);
        assert(decode_spec(s) == Ok::<Seq<(i32, Seq<u8>)>, DecodeError>(seq![e] + es.drop_first()));
    }
}

/// A record whose name runs up to the last byte of the filled region, its
/// NUL on that byte, decodes to its whole name, however long the name is.
pub proof fn lemma_name_to_end_of_fill(ino: i32, name: Seq<u8>)
    requires
        valid_name(name),
    ensures
        record_bytes(ino, name).last() == 0,
        decode_spec(record_bytes(ino, name)) == Ok::<Seq<(i32, Seq<u8>)>, DecodeError>(
            seq![(ino, name)],
        ),
{
    let es = seq![(ino, name)];
    assert(es.drop_first() =~= seq![]);
    assert(encode_spec(es.drop_first()) =~= seq![]);
    assert(encode_spec(es) =~= record_bytes(ino, name));
    lemma_round_trip(es);
}

} // verus!
