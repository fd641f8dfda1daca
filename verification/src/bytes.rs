//! The compact binary encoding of values — variant-discriminated,
//! field by field — and the framed binary form: an 8-byte little-endian
//! total-length prefix followed by exactly the compact bytes.

use vstd::prelude::*;
use crate::ident::Identifier;
use crate::mode::Mode;
use crate::num::{le_of, le_val};
use crate::value::{Literal, Plaintext, Value, LitV, PtV, ValV, pt_view, pt_members_view,
    rec_entries_view, lemma_pt_members_view, lemma_rec_entries_view, EntryV,
    lemma_ptv_members_wf_index, lemma_valv_entries_wf_index, lemma_pt_members_view_snoc,
    lemma_rec_entries_view_snoc};

verus! {

/// The bytes of an ASCII text token.
pub open spec fn chars_bytes(s: Seq<char>) -> Seq<u8> {
    s.map_values(|c: char| c as u8)
}

/// The visibility byte of a mode.
pub open spec fn mode_byte(m: Mode) -> u8 {
    match m {
        Mode::Constant => 0,
        Mode::Public => 1,
        Mode::Private => 2,
    }
}

/// The compact bytes of a literal: a tag byte and the payload. Tokens carry
/// a one-byte length; an address is fixed-width; integers are little-endian.
pub open spec fn lit_bytes(l: LitV) -> Seq<u8> {
    match l {
        LitV::Address(s) => seq![0u8].add(chars_bytes(s)),
        LitV::Boolean(b) => seq![
            1u8,
            if b {
                1u8
            } else {
                0u8
            },
        ],
        LitV::Field(s) => seq![2u8, s.len() as u8].add(chars_bytes(s)),
        LitV::Group(s) => seq![3u8, s.len() as u8].add(chars_bytes(s)),
        LitV::Scalar(v) => seq![4u8].add(le_of(v as nat, 8)),
        LitV::U64(v) => seq![5u8].add(le_of(v as nat, 8)),
    }
}

/// The compact bytes of a plaintext: a literal, or a member count followed
/// by length-prefixed member names and nested plaintexts.
pub open spec fn pt_bytes(p: PtV) -> Seq<u8>
    decreases p,
{
    match p {
        PtV::Literal(l) => seq![0u8].add(lit_bytes(l)),
        PtV::Struct(ms) => seq![1u8, ms.len() as u8].add(pt_members_bytes(ms, 0)),
    }
}

pub open spec fn pt_members_bytes(ms: Seq<(Seq<char>, PtV)>, i: int) -> Seq<u8>
    decreases ms, ms.len() - i,
{
    if i < 0 || i >= ms.len() {
        Seq::empty()
    } else {
        seq![ms[i].0.len() as u8].add(chars_bytes(ms[i].0)).add(pt_bytes(ms[i].1)).add(
            pt_members_bytes(ms, i + 1),
        )
    }
}

/// The compact bytes of a value: a tag byte, then the plaintext, or the
/// entry count followed by named entries, each with its visibility byte.
pub open spec fn value_bytes(v: ValV) -> Seq<u8> {
    match v {
        ValV::Plaintext(p) => seq![0u8].add(pt_bytes(p)),
        ValV::Record(es) => seq![1u8, es.len() as u8].add(rec_entries_bytes(es, 0)),
    }
}

pub open spec fn rec_entries_bytes(es: Seq<(Seq<char>, EntryV)>, i: int) -> Seq<u8>
    decreases es.len() - i,
{
    if i < 0 || i >= es.len() {
        Seq::empty()
    } else {
        seq![es[i].0.len() as u8].add(chars_bytes(es[i].0)).add(seq![mode_byte(es[i].1.vis)]).add(
            pt_bytes(es[i].1.pt),
        ).add(rec_entries_bytes(es, i + 1))
    }
}

/// The framed bytes of a value: the 8-byte little-endian length of the
/// compact encoding, then exactly the compact encoding.
pub open spec fn framed_bytes(v: ValV) -> Seq<u8> {
    le_of(value_bytes(v).len(), 8).add(value_bytes(v))
}

/// The characters of an ASCII byte string.
pub open spec fn bytes_chars(s: Seq<u8>) -> Seq<char> {
    s.map_values(|x: u8| x as char)
}

/// Every character of the token is ASCII.
pub open spec fn all_ascii(s: Seq<char>) -> bool {
    forall|i: int| 0 <= i < s.len() ==> ((#[trigger] s[i]) as u32) < 128
}

/// An ASCII character survives the round trip through its byte.
pub proof fn lemma_ascii_char_byte(c: char)
    requires
        (c as u32) < 128,
    ensures
        ((c as u8) as char) == c,
{
}

/// Byte encoding and decoding of an ASCII token are inverse.
pub proof fn lemma_bytes_chars_of_chars(s: Seq<char>)
    requires
        all_ascii(s),
    ensures
        bytes_chars(chars_bytes(s)) == s,
{
    assert forall|i: int| 0 <= i < s.len() implies #[trigger] bytes_chars(chars_bytes(s))[i]
        == s[i] by {
        let c = s[i];
        assert((c as u32) < 128);
        assert(chars_bytes(s)[i] == c as u8);
        lemma_ascii_char_byte(c);
    }
    assert(bytes_chars(chars_bytes(s)) =~= s);
}

/// A lexically valid identifier is ASCII.
pub proof fn lemma_valid_ident_ascii(s: Seq<char>)
    requires
        crate::ident::is_valid_ident(s),
    ensures
        all_ascii(s),
{
    assert forall|i: int| 0 <= i < s.len() implies ((#[trigger] s[i]) as u32) < 128 by {
        assert(crate::ident::is_ident_char(s[i]));
    }
}

/// A lexically valid address is ASCII.
pub proof fn lemma_valid_address_ascii(s: Seq<char>)
    requires
        crate::value::is_valid_address(s),
    ensures
        all_ascii(s),
{
    assert forall|i: int| 0 <= i < s.len() implies ((#[trigger] s[i]) as u32) < 128 by {
        if i >= 5 {
            assert(crate::value::is_addr_char(s[i]));
        }
    }
}

/// A canonical decimal token is ASCII.
pub proof fn lemma_canon_dec_ascii(s: Seq<char>)
    requires
        crate::num::is_canon_dec(s),
    ensures
        all_ascii(s),
{
    assert forall|i: int| 0 <= i < s.len() implies ((#[trigger] s[i]) as u32) < 128 by {
        assert(crate::num::is_dec_digit(s[i]));
    }
}

/// The tag byte of a literal's encoding.
pub open spec fn lit_tag(l: LitV) -> u8 {
    match l {
        LitV::Address(_) => 0,
        LitV::Boolean(_) => 1,
        LitV::Field(_) => 2,
        LitV::Group(_) => 3,
        LitV::Scalar(_) => 4,
        LitV::U64(_) => 5,
    }
}

/// The header and length of a well-formed literal's encoding.
pub proof fn lemma_lit_header(l: LitV)
    requires
        crate::value::litv_wf(l),
    ensures
        lit_bytes(l).len() >= 2,
        lit_bytes(l)[0] == lit_tag(l),
        l is Address ==> lit_bytes(l).len() == 1 + l->Address_0.len(),
        l is Boolean ==> lit_bytes(l).len() == 2,
        l is Field ==> lit_bytes(l).len() == 2 + l->Field_0.len() && lit_bytes(l)[1]
            == l->Field_0.len() as u8,
        l is Group ==> lit_bytes(l).len() == 2 + l->Group_0.len() && lit_bytes(l)[1]
            == l->Group_0.len() as u8,
        l is Scalar ==> lit_bytes(l).len() == 9,
        l is U64 ==> lit_bytes(l).len() == 9,
{
    crate::num::lemma_pow256_8();
    match l {
        LitV::Scalar(x) => {
            crate::num::lemma_le_of_val(x as nat, 8);
        },
        LitV::U64(x) => {
            crate::num::lemma_le_of_val(x as nat, 8);
        },
        _ => {
        },
    }
}

/// The encoding of the witness literal sits at `pos` in the buffer.
pub open spec fn lit_at(b: Seq<u8>, pos: int, l: LitV) -> bool {
    &&& crate::value::litv_wf(l)
    &&& 0 <= pos
    &&& pos + lit_bytes(l).len() <= b.len()
    &&& b.subrange(pos, pos + lit_bytes(l).len() as int) == lit_bytes(l)
}

/// The encoding of the witness plaintext sits at `pos` in the buffer.
pub open spec fn pt_at(b: Seq<u8>, pos: int, p: PtV) -> bool {
    &&& crate::value::ptv_wf(p)
    &&& 0 <= pos
    &&& pos + pt_bytes(p).len() <= b.len()
    &&& b.subrange(pos, pos + pt_bytes(p).len() as int) == pt_bytes(p)
}

/// The buffer is exactly the encoding of the witness value.
pub open spec fn value_at(b: Seq<u8>, v: ValV) -> bool {
    &&& crate::value::valv_wf(v)
    &&& b == value_bytes(v)
}

// ---------------------------------------------------------------------------
// Encoders.
// ---------------------------------------------------------------------------

/// Appends the bytes of a character vector.
fn write_char_vec(out: &mut Vec<u8>, cs: &Vec<char>) -> (u: ())
    ensures
        final(out)@ == old(out)@.add(chars_bytes(cs@)),
{
    let n = cs.len();
    let mut i: usize = 0;
    while i < n
        invariant
            i <= n,
            n == cs@.len(),
            out@ =~= old(out)@.add(chars_bytes(cs@.subrange(0, i as int))),
        decreases n - i,
    {
        let c = cs[i];
        out.push(c as u8);
        i = i + 1;
        proof {
            assert(out@ =~= old(out)@.add(chars_bytes(cs@.subrange(0, i as int))));
        }
    }
    proof {
        assert(cs@.subrange(0, n as int) =~= cs@);
    }
}

/// Appends a string token's bytes.
fn write_token(out: &mut Vec<u8>, s: &String) -> (u: ())
    ensures
        final(out)@ == old(out)@.add(chars_bytes(s@)),
{
    let cs = crate::strings::str_to_chars(s.as_str());
    write_char_vec(out, &cs);
    proof {
        assert(chars_bytes(cs@) =~= chars_bytes(s@));
    }
}

/// Appends the compact bytes of a literal.
fn write_lit(out: &mut Vec<u8>, l: &Literal) -> (u: ())
    requires
        crate::value::litv_wf(l@),
    ensures
        final(out)@ == old(out)@.add(lit_bytes(l@)),
{
    match l {
        Literal::Address(s) => {
            out.push(0u8);
            write_token(out, s);
        },
        Literal::Boolean(b) => {
            out.push(1u8);
            out.push(
                if *b {
                    1u8
                } else {
                    0u8
                },
            );
            proof {
                assert(out@ =~= old(out)@.add(lit_bytes(l@)));
            }
        },
        Literal::Field(s) => {
            out.push(2u8);
            let cs = crate::strings::str_to_chars(s.as_str());
            out.push(cs.len() as u8);
            write_char_vec(out, &cs);
            proof {
                assert(chars_bytes(cs@) =~= chars_bytes(s@));
                assert(out@ =~= old(out)@.add(lit_bytes(l@)));
            }
        },
        Literal::Group(s) => {
            out.push(3u8);
            let cs = crate::strings::str_to_chars(s.as_str());
            out.push(cs.len() as u8);
            write_char_vec(out, &cs);
            proof {
                assert(chars_bytes(cs@) =~= chars_bytes(s@));
                assert(out@ =~= old(out)@.add(lit_bytes(l@)));
            }
        },
        Literal::Scalar(v) => {
            out.push(4u8);
            let bytes = crate::num::u64_to_le_bytes(*v);
            append_bytes(out, &bytes);
            proof {
                assert(out@ =~= old(out)@.add(lit_bytes(l@)));
            }
        },
        Literal::U64(v) => {
            out.push(5u8);
            let bytes = crate::num::u64_to_le_bytes(*v);
            append_bytes(out, &bytes);
            proof {
                assert(out@ =~= old(out)@.add(lit_bytes(l@)));
            }
        },
    }
}

/// Appends a byte vector.
fn append_bytes(out: &mut Vec<u8>, add: &Vec<u8>) -> (u: ())
    ensures
        final(out)@ == old(out)@.add(add@),
{
    let n = add.len();
    let mut i: usize = 0;
    while i < n
        invariant
            i <= n,
            n == add@.len(),
            out@ =~= old(out)@.add(add@.subrange(0, i as int)),
        decreases n - i,
    {
        out.push(add[i]);
        i = i + 1;
        proof {
            assert(out@ =~= old(out)@.add(add@.subrange(0, i as int)));
        }
    }
    proof {
        assert(add@.subrange(0, n as int) =~= add@);
    }
}

/// Appends the compact bytes of a plaintext.
fn write_pt(out: &mut Vec<u8>, p: &Plaintext) -> (u: ())
    requires
        crate::value::ptv_wf(pt_view(*p)),
    ensures
        final(out)@ == old(out)@.add(pt_bytes(pt_view(*p))),
    decreases *p, 0int,
{
    match p {
        Plaintext::Literal(l) => {
            out.push(0u8);
            write_lit(out, l);
            proof {
                assert(out@ =~= old(out)@.add(pt_bytes(pt_view(*p))));
            }
        },
        Plaintext::Struct(ms) => {
            proof {
                lemma_pt_members_view(ms@);
            }
            out.push(1u8);
            out.push(ms.len() as u8);
            write_pt_members(out, ms, 0);
            proof {
                assert(out@ =~= old(out)@.add(pt_bytes(pt_view(*p))));
            }
        },
    }
}

/// Appends the compact bytes of struct members from index `i` on.
fn write_pt_members(out: &mut Vec<u8>, ms: &Vec<(Identifier, Plaintext)>, i: usize) -> (u: ())
    requires
        i <= ms@.len(),
        crate::value::ptv_members_wf(pt_members_view(ms@)),
    ensures
        final(out)@ == old(out)@.add(pt_members_bytes(pt_members_view(ms@), i as int)),
    decreases *ms, ms@.len() - i,
{
    proof {
        lemma_pt_members_view(ms@);
    }
    if i == ms.len() {
        proof {
            assert(out@ =~= old(out)@.add(
                pt_members_bytes(pt_members_view(ms@), i as int),
            ));
        }
        return ;
    }
    proof {
        crate::value::lemma_ptv_members_wf_index(pt_members_view(ms@), i as int);
    }
    let name = &ms[i].0;
    let cs = crate::strings::str_to_chars(name.as_str());
    out.push(cs.len() as u8);
    write_char_vec(out, &cs);
    write_pt(out, &ms[i].1);
    write_pt_members(out, ms, i + 1);
    proof {
        assert(chars_bytes(cs@) =~= chars_bytes(pt_members_view(ms@)[i as int].0));
        assert(out@ =~= old(out)@.add(pt_members_bytes(pt_members_view(ms@), i as int)));
    }
}

/// Appends the compact bytes of record entries from index `i` on.
fn write_rec_entries(
    out: &mut Vec<u8>,
    es: &Vec<(Identifier, crate::value::Entry)>,
    i: usize,
) -> (u: ())
    requires
        i <= es@.len(),
        crate::value::valv_entries_wf(rec_entries_view(es@)),
    ensures
        final(out)@ == old(out)@.add(rec_entries_bytes(rec_entries_view(es@), i as int)),
    decreases es@.len() - i,
{
    proof {
        lemma_rec_entries_view(es@);
    }
    if i == es.len() {
        proof {
            assert(out@ =~= old(out)@.add(
                rec_entries_bytes(rec_entries_view(es@), i as int),
            ));
        }
        return ;
    }
    proof {
        crate::value::lemma_valv_entries_wf_index(rec_entries_view(es@), i as int);
    }
    let name = &es[i].0;
    let cs = crate::strings::str_to_chars(name.as_str());
    out.push(cs.len() as u8);
    write_char_vec(out, &cs);
    let vb: u8 = match es[i].1.vis {
        Mode::Constant => 0,
        Mode::Public => 1,
        Mode::Private => 2,
    };
    out.push(vb);
    write_pt(out, &es[i].1.plaintext);
    write_rec_entries(out, es, i + 1);
    proof {
        assert(chars_bytes(cs@) =~= chars_bytes(rec_entries_view(es@)[i as int].0));
        assert(out@ =~= old(out)@.add(rec_entries_bytes(rec_entries_view(es@), i as int)));
    }
}

/// Encodes a value into its compact binary form.
pub fn value_to_bytes(v: &Value) -> (r: Vec<u8>)
    requires
        crate::value::valv_wf(v@),
    ensures
        r@ == value_bytes(v@),
{
    let mut out: Vec<u8> = Vec::new();
    match v {
        Value::Plaintext(p) => {
            out.push(0u8);
            write_pt(&mut out, p);
            proof {
                assert(out@ =~= value_bytes(v@));
            }
        },
        Value::Record(es) => {
            proof {
                lemma_rec_entries_view(es@);
            }
            out.push(1u8);
            out.push(es.len() as u8);
            write_rec_entries(&mut out, es, 0);
            proof {
                assert(out@ =~= value_bytes(v@));
            }
        },
    }
    out
}

/// Encodes a value into its framed binary form: the 8-byte little-endian
/// length of the compact encoding, then exactly those bytes — the prefix is
/// a framing convenience and never alters the content.
pub fn value_to_bytes_framed(v: &Value) -> (r: Vec<u8>)
    requires
        crate::value::valv_wf(v@),
    ensures
        r@ == framed_bytes(v@),
        r@ == le_of(value_bytes(v@).len(), 8).add(value_bytes(v@)),
{
    let body = value_to_bytes(v);
    let mut out = crate::num::u64_to_le_bytes(body.len() as u64);
    append_bytes(&mut out, &body);
    proof {
        assert(out@ =~= framed_bytes(v@));
    }
    out
}

// ---------------------------------------------------------------------------
// Decoders. A decoded value is accepted only after its own encoding has been
// recomputed and compared with the input, so a successful decode certifies
// that the input is exactly the value's canonical encoding.
// ---------------------------------------------------------------------------

/// Compares two byte vectors.
fn bytes_eq(a: &Vec<u8>, b: &Vec<u8>) -> (r: bool)
    ensures
        r == (a@ == b@),
{
    let n = a.len();
    if n != b.len() {
        return false;
    }
    let mut i: usize = 0;
    while i < n
        invariant
            i <= n,
            n == a@.len() == b@.len(),
            forall|j: int| 0 <= j < i ==> a@[j] == b@[j],
        decreases n - i,
    {
        if a[i] != b[i] {
            return false;
        }
        i = i + 1;
    }
    proof {
        assert(a@ =~= b@);
    }
    true
}

/// Splitting a concatenation at equal prefix lengths.
proof fn lemma_concat_split(a1: Seq<u8>, r1: Seq<u8>, a2: Seq<u8>, r2: Seq<u8>)
    requires
        a1.len() == a2.len(),
        a1.add(r1) == a2.add(r2),
    ensures
        a1 == a2,
        r1 == r2,
{
    assert(a1.add(r1).len() == a1.len() + r1.len());
    assert(a2.add(r2).len() == a2.len() + r2.len());
    assert(a1 =~= a2) by {
        assert(forall|i: int|
            0 <= i < a1.len() ==> #[trigger] a1[i] == a1.add(r1)[i] && a2[i] == a2.add(r2)[i]);
    }
    assert(r1 =~= r2) by {
        assert(r1.len() == r2.len());
        assert(forall|i: int|
            0 <= i < r1.len() ==> #[trigger] r1[i] == a1.add(r1)[i + a1.len()] && r2[i] == a2.add(
                r2,
            )[i + a2.len()]);
    }
}

/// ASCII byte encoding of tokens is injective.
proof fn lemma_chars_bytes_injective(s1: Seq<char>, s2: Seq<char>)
    requires
        all_ascii(s1),
        all_ascii(s2),
        chars_bytes(s1) == chars_bytes(s2),
    ensures
        s1 == s2,
{
    lemma_bytes_chars_of_chars(s1);
    lemma_bytes_chars_of_chars(s2);
}

/// The literal encoding is prefix-determined: equal concatenations split at
/// the literal boundary, with equal literals.
proof fn lemma_lit_bytes_prefix(l1: LitV, l2: LitV, r1: Seq<u8>, r2: Seq<u8>)
    requires
        crate::value::litv_wf(l1),
        crate::value::litv_wf(l2),
        lit_bytes(l1).add(r1) == lit_bytes(l2).add(r2),
    ensures
        l1 == l2,
        r1 == r2,
{
    lemma_lit_header(l1);
    lemma_lit_header(l2);
    let c1 = lit_bytes(l1).add(r1);
    let c2 = lit_bytes(l2).add(r2);
    assert(c1[0] == lit_tag(l1) && c2[0] == lit_tag(l2));
    assert(lit_tag(l1) == lit_tag(l2));
    if lit_bytes(l1).len() >= 2 && lit_bytes(l2).len() >= 2 {
        assert(c1[1] == lit_bytes(l1)[1] && c2[1] == lit_bytes(l2)[1]);
    }
    match (l1, l2) {
        (LitV::Address(s1), LitV::Address(s2)) => {
            lemma_concat_split(lit_bytes(l1), r1, lit_bytes(l2), r2);
            lemma_valid_address_ascii(s1);
            lemma_valid_address_ascii(s2);
            assert(lit_bytes(l1).subrange(1, 64) =~= chars_bytes(s1));
            assert(lit_bytes(l2).subrange(1, 64) =~= chars_bytes(s2));
            lemma_chars_bytes_injective(s1, s2);
        },
        (LitV::Boolean(b1), LitV::Boolean(b2)) => {
            lemma_concat_split(lit_bytes(l1), r1, lit_bytes(l2), r2);
            assert(lit_bytes(l1)[1] == lit_bytes(l2)[1]);
            assert(b1 == b2);
        },
        (LitV::Field(s1), LitV::Field(s2)) => {
            assert(s1.len() as u8 == s2.len() as u8);
            assert(s1.len() == s2.len());
            lemma_concat_split(lit_bytes(l1), r1, lit_bytes(l2), r2);
            lemma_canon_dec_ascii(s1);
            lemma_canon_dec_ascii(s2);
            assert(lit_bytes(l1).subrange(2, 2 + s1.len() as int) =~= chars_bytes(s1));
            assert(lit_bytes(l2).subrange(2, 2 + s2.len() as int) =~= chars_bytes(s2));
            lemma_chars_bytes_injective(s1, s2);
        },
        (LitV::Group(s1), LitV::Group(s2)) => {
            assert(s1.len() as u8 == s2.len() as u8);
            assert(s1.len() == s2.len());
            lemma_concat_split(lit_bytes(l1), r1, lit_bytes(l2), r2);
            lemma_canon_dec_ascii(s1);
            lemma_canon_dec_ascii(s2);
            assert(lit_bytes(l1).subrange(2, 2 + s1.len() as int) =~= chars_bytes(s1));
            assert(lit_bytes(l2).subrange(2, 2 + s2.len() as int) =~= chars_bytes(s2));
            lemma_chars_bytes_injective(s1, s2);
        },
        (LitV::Scalar(x1), LitV::Scalar(x2)) => {
            lemma_concat_split(lit_bytes(l1), r1, lit_bytes(l2), r2);
            assert(lit_bytes(l1).subrange(1, 9) =~= le_of(x1 as nat, 8));
            assert(lit_bytes(l2).subrange(1, 9) =~= le_of(x2 as nat, 8));
            crate::num::lemma_pow256_8();
            crate::num::lemma_le_of_val(x1 as nat, 8);
            crate::num::lemma_le_of_val(x2 as nat, 8);
        },
        (LitV::U64(x1), LitV::U64(x2)) => {
            lemma_concat_split(lit_bytes(l1), r1, lit_bytes(l2), r2);
            assert(lit_bytes(l1).subrange(1, 9) =~= le_of(x1 as nat, 8));
            assert(lit_bytes(l2).subrange(1, 9) =~= le_of(x2 as nat, 8));
            crate::num::lemma_pow256_8();
            crate::num::lemma_le_of_val(x1 as nat, 8);
            crate::num::lemma_le_of_val(x2 as nat, 8);
        },
        (_, _) => {
            assert(false);
        },
    }
}

/// The plaintext encoding is prefix-determined.
proof fn lemma_pt_bytes_prefix(p1: PtV, p2: PtV, r1: Seq<u8>, r2: Seq<u8>)
    requires
        crate::value::ptv_wf(p1),
        crate::value::ptv_wf(p2),
        pt_bytes(p1).add(r1) == pt_bytes(p2).add(r2),
    ensures
        p1 == p2,
        r1 == r2,
    decreases p1, 1int, 0int,
{
    let c1 = pt_bytes(p1).add(r1);
    let c2 = pt_bytes(p2).add(r2);
    lemma_pt_bytes_len(p1);
    lemma_pt_bytes_len(p2);
    assert(c1[0] == pt_bytes(p1)[0] && c2[0] == pt_bytes(p2)[0]);
    match (p1, p2) {
        (PtV::Literal(l1), PtV::Literal(l2)) => {
            let t1 = lit_bytes(l1).add(r1);
            let t2 = lit_bytes(l2).add(r2);
            assert(c1 =~= seq![0u8].add(t1));
            assert(c2 =~= seq![0u8].add(t2));
            lemma_concat_split(seq![0u8], t1, seq![0u8], t2);
            lemma_lit_bytes_prefix(l1, l2, r1, r2);
        },
        (PtV::Struct(ms1), PtV::Struct(ms2)) => {
            assert(c1[1] == pt_bytes(p1)[1] && c2[1] == pt_bytes(p2)[1]);
            assert(ms1.len() as u8 == ms2.len() as u8);
            assert(ms1.len() == ms2.len());
            let t1 = pt_members_bytes(ms1, 0).add(r1);
            let t2 = pt_members_bytes(ms2, 0).add(r2);
            assert(c1 =~= seq![1u8, ms1.len() as u8].add(t1));
            assert(c2 =~= seq![1u8, ms2.len() as u8].add(t2));
            lemma_concat_split(
                seq![1u8, ms1.len() as u8],
                t1,
                seq![1u8, ms2.len() as u8],
                t2,
            );
            lemma_members_bytes_prefix(ms1, ms2, 0, r1, r2);
            assert(ms1 =~= ms2);
        },
        (_, _) => {
            assert(false);
        },
    }
}

/// The member-list encoding is prefix-determined, member by member.
proof fn lemma_members_bytes_prefix(
    ms1: Seq<(Seq<char>, PtV)>,
    ms2: Seq<(Seq<char>, PtV)>,
    i: int,
    r1: Seq<u8>,
    r2: Seq<u8>,
)
    requires
        crate::value::ptv_members_wf(ms1),
        crate::value::ptv_members_wf(ms2),
        ms1.len() == ms2.len(),
        0 <= i <= ms1.len(),
        pt_members_bytes(ms1, i).add(r1) == pt_members_bytes(ms2, i).add(r2),
    ensures
        forall|j: int| i <= j < ms1.len() ==> #[trigger] ms1[j] == ms2[j],
        r1 == r2,
    decreases ms1, 0int, ms1.len() - i,
{
    if i == ms1.len() {
        assert(pt_members_bytes(ms1, i).len() == 0);
        assert(pt_members_bytes(ms2, i).len() == 0);
        assert(r1 =~= pt_members_bytes(ms1, i).add(r1));
        assert(r2 =~= pt_members_bytes(ms2, i).add(r2));
    } else {
        lemma_ptv_members_wf_index(ms1, i);
        lemma_ptv_members_wf_index(ms2, i);
        let n1 = ms1[i].0;
        let n2 = ms2[i].0;
        let c1 = pt_members_bytes(ms1, i).add(r1);
        let c2 = pt_members_bytes(ms2, i).add(r2);
        assert(c1 =~= seq![n1.len() as u8].add(chars_bytes(n1)).add(pt_bytes(ms1[i].1)).add(
            pt_members_bytes(ms1, i + 1).add(r1),
        ));
        assert(c2 =~= seq![n2.len() as u8].add(chars_bytes(n2)).add(pt_bytes(ms2[i].1)).add(
            pt_members_bytes(ms2, i + 1).add(r2),
        ));
        assert(c1[0] == n1.len() as u8 && c2[0] == n2.len() as u8);
        assert(n1.len() == n2.len());
        let tail1 = pt_bytes(ms1[i].1).add(pt_members_bytes(ms1, i + 1).add(r1));
        let tail2 = pt_bytes(ms2[i].1).add(pt_members_bytes(ms2, i + 1).add(r2));
        assert(seq![n1.len() as u8].add(chars_bytes(n1)).len() == seq![n2.len() as u8].add(
            chars_bytes(n2),
        ).len());
        assert(seq![n1.len() as u8].add(chars_bytes(n1)).add(tail1) =~= c1);
        assert(seq![n2.len() as u8].add(chars_bytes(n2)).add(tail2) =~= c2);
        lemma_concat_split(
            seq![n1.len() as u8].add(chars_bytes(n1)),
            tail1,
            seq![n2.len() as u8].add(chars_bytes(n2)),
            tail2,
        );
        assert(chars_bytes(n1) =~= seq![n1.len() as u8].add(chars_bytes(n1)).subrange(
            1,
            1 + n1.len() as int,
        ));
        assert(chars_bytes(n2) =~= seq![n2.len() as u8].add(chars_bytes(n2)).subrange(
            1,
            1 + n2.len() as int,
        ));
        lemma_valid_ident_ascii(n1);
        lemma_valid_ident_ascii(n2);
        lemma_chars_bytes_injective(n1, n2);
        lemma_pt_bytes_prefix(
            ms1[i].1,
            ms2[i].1,
            pt_members_bytes(ms1, i + 1).add(r1),
            pt_members_bytes(ms2, i + 1).add(r2),
        );
        lemma_members_bytes_prefix(ms1, ms2, i + 1, r1, r2);
        assert(ms1[i] == ms2[i]);
    }
}

/// The record-entry encoding is prefix-determined, entry by entry.
proof fn lemma_entries_bytes_prefix(
    es1: Seq<(Seq<char>, EntryV)>,
    es2: Seq<(Seq<char>, EntryV)>,
    i: int,
    r1: Seq<u8>,
    r2: Seq<u8>,
)
    requires
        crate::value::valv_entries_wf(es1),
        crate::value::valv_entries_wf(es2),
        es1.len() == es2.len(),
        0 <= i <= es1.len(),
        rec_entries_bytes(es1, i).add(r1) == rec_entries_bytes(es2, i).add(r2),
    ensures
        forall|j: int| i <= j < es1.len() ==> #[trigger] es1[j] == es2[j],
        r1 == r2,
    decreases es1.len() - i,
{
    if i == es1.len() {
        assert(rec_entries_bytes(es1, i).len() == 0);
        assert(rec_entries_bytes(es2, i).len() == 0);
        assert(r1 =~= rec_entries_bytes(es1, i).add(r1));
        assert(r2 =~= rec_entries_bytes(es2, i).add(r2));
    } else {
        lemma_valv_entries_wf_index(es1, i);
        lemma_valv_entries_wf_index(es2, i);
        let n1 = es1[i].0;
        let n2 = es2[i].0;
        let c1 = rec_entries_bytes(es1, i).add(r1);
        let c2 = rec_entries_bytes(es2, i).add(r2);
        let h1 = seq![n1.len() as u8].add(chars_bytes(n1)).add(seq![mode_byte(es1[i].1.vis)]);
        let h2 = seq![n2.len() as u8].add(chars_bytes(n2)).add(seq![mode_byte(es2[i].1.vis)]);
        let tail1 = pt_bytes(es1[i].1.pt).add(rec_entries_bytes(es1, i + 1).add(r1));
        let tail2 = pt_bytes(es2[i].1.pt).add(rec_entries_bytes(es2, i + 1).add(r2));
        assert(h1.add(tail1) =~= c1);
        assert(h2.add(tail2) =~= c2);
        assert(c1[0] == n1.len() as u8 && c2[0] == n2.len() as u8);
        assert(n1.len() == n2.len());
        assert(h1.len() == h2.len());
        lemma_concat_split(h1, tail1, h2, tail2);
        assert(chars_bytes(n1) =~= h1.subrange(1, 1 + n1.len() as int));
        assert(chars_bytes(n2) =~= h2.subrange(1, 1 + n2.len() as int));
        lemma_valid_ident_ascii(n1);
        lemma_valid_ident_ascii(n2);
        lemma_chars_bytes_injective(n1, n2);
        assert(h1[1 + n1.len() as int] == mode_byte(es1[i].1.vis));
        assert(h2[1 + n2.len() as int] == mode_byte(es2[i].1.vis));
        assert(es1[i].1.vis == es2[i].1.vis);
        lemma_pt_bytes_prefix(
            es1[i].1.pt,
            es2[i].1.pt,
            rec_entries_bytes(es1, i + 1).add(r1),
            rec_entries_bytes(es2, i + 1).add(r2),
        );
        lemma_entries_bytes_prefix(es1, es2, i + 1, r1, r2);
        assert(es1[i].1 == es2[i].1);
        assert(es1[i] == es2[i]);
    }
}

/// The leading bytes of a value's encoding.
proof fn lemma_value_header(w: ValV)
    ensures
        value_bytes(w).len() >= 2,
        w is Plaintext ==> value_bytes(w)[0] == 0,
        w is Record ==> value_bytes(w)[0] == 1 && value_bytes(w)[1]
            == w->Record_0.len() as u8,
{
    match w {
        ValV::Plaintext(p) => {
            lemma_pt_bytes_len(p);
            assert(value_bytes(w) =~= seq![0u8].add(pt_bytes(p)));
        },
        ValV::Record(es) => {
            assert(value_bytes(w) =~= seq![1u8, es.len() as u8].add(rec_entries_bytes(es, 0)));
        },
    }
}

/// The compact encoding is injective on well-formed values: equal encodings
/// come from equal values, so each decoded value is the one that was encoded.
pub proof fn lemma_value_bytes_injective(w1: ValV, w2: ValV)
    requires
        crate::value::valv_wf(w1),
        crate::value::valv_wf(w2),
        value_bytes(w1) == value_bytes(w2),
    ensures
        w1 == w2,
{
    lemma_value_header(w1);
    lemma_value_header(w2);
    assert(value_bytes(w1)[0] == value_bytes(w2)[0]);
    assert(value_bytes(w1)[1] == value_bytes(w2)[1]);
    match (w1, w2) {
        (ValV::Plaintext(p1), ValV::Plaintext(p2)) => {
            assert(seq![0u8].add(pt_bytes(p1)) =~= value_bytes(w1));
            assert(seq![0u8].add(pt_bytes(p2)) =~= value_bytes(w2));
            lemma_concat_split(seq![0u8], pt_bytes(p1), seq![0u8], pt_bytes(p2));
            lemma_pt_bytes_prefix(p1, p2, Seq::empty(), Seq::empty());
        },
        (ValV::Record(es1), ValV::Record(es2)) => {
            assert(value_bytes(w1)[1] == value_bytes(w2)[1]);
            assert(es1.len() as u8 == es2.len() as u8);
            assert(es1.len() == es2.len());
            assert(seq![1u8, es1.len() as u8].add(rec_entries_bytes(es1, 0)) =~= value_bytes(w1));
            assert(seq![1u8, es2.len() as u8].add(rec_entries_bytes(es2, 0)) =~= value_bytes(w2));
            lemma_concat_split(
                seq![1u8, es1.len() as u8],
                rec_entries_bytes(es1, 0),
                seq![1u8, es2.len() as u8],
                rec_entries_bytes(es2, 0),
            );
            assert(rec_entries_bytes(es1, 0).add(Seq::empty()) =~= rec_entries_bytes(es1, 0));
            assert(rec_entries_bytes(es2, 0).add(Seq::empty()) =~= rec_entries_bytes(es2, 0));
            lemma_entries_bytes_prefix(es1, es2, 0, Seq::empty(), Seq::empty());
            assert(es1 =~= es2);
        },
        (_, _) => {
            assert(false);
        },
    }
}

/// The framed encoding is injective on well-formed values.
pub proof fn lemma_framed_bytes_injective(w1: ValV, w2: ValV)
    requires
        crate::value::valv_wf(w1),
        crate::value::valv_wf(w2),
        framed_bytes(w1) == framed_bytes(w2),
    ensures
        w1 == w2,
{
    crate::num::lemma_le_of_len(value_bytes(w1).len(), 8);
    crate::num::lemma_le_of_len(value_bytes(w2).len(), 8);
    lemma_concat_split(
        le_of(value_bytes(w1).len(), 8),
        value_bytes(w1),
        le_of(value_bytes(w2).len(), 8),
        value_bytes(w2),
    );
    lemma_value_bytes_injective(w1, w2);
}

/// Reads one literal starting at `pos`. If the ghost witness's encoding
/// sits at `pos`, the read succeeds with exactly that literal.
fn raw_read_lit(b: &Vec<u8>, pos: usize, Ghost(w): Ghost<Option<LitV>>) -> (r: Option<
    (Literal, usize),
>)
    ensures
        r is Some ==> pos < (r->0).1 <= b@.len(),
        (w matches Some(l) && lit_at(b@, pos as int, l)) ==> (r matches Some(p) && p.0@ == w->0
            && p.1 == pos + lit_bytes(w->0).len()),
{
    let ghost live = w matches Some(l) && lit_at(b@, pos as int, l);
    proof {
        if live {
            let l = w->0;
            lemma_lit_header(l);
            assert(b@[pos as int] == lit_bytes(l)[0]);
            if lit_bytes(l).len() >= 2 {
                assert(b@[pos as int + 1] == lit_bytes(l)[1]);
            }
            match l {
                LitV::Address(s) => {
                    lemma_valid_address_ascii(s);
                    lemma_bytes_chars_of_chars(s);
                },
                LitV::Field(s) => {
                    lemma_canon_dec_ascii(s);
                    lemma_bytes_chars_of_chars(s);
                },
                LitV::Group(s) => {
                    lemma_canon_dec_ascii(s);
                    lemma_bytes_chars_of_chars(s);
                },
                _ => {
                },
            }
        }
    }
    let n = b.len();
    if pos >= n {
        proof {
            if live {
                assert(false);
            }
        }
        return None;
    }
    let tag = b[pos];
    if tag == 0 {
        if n - pos < 1 + 63 {
            proof {
                if live {
                    assert(false);
                }
            }
            return None;
        }
        let s = read_token(b, pos + 1, 63);
        proof {
            if live {
                let l = w->0;
                let t = l->Address_0;
                assert(b@.subrange(pos + 1, pos + 64) =~= lit_bytes(l).subrange(1, 64));
                assert(lit_bytes(l).subrange(1, 64) =~= chars_bytes(t));
            }
        }
        Some((Literal::Address(s), pos + 64))
    } else if tag == 1 {
        if n - pos < 2 {
            proof {
                if live {
                    assert(false);
                }
            }
            return None;
        }
        proof {
            if live {
                let l = w->0;
                assert(b@[pos + 1] == lit_bytes(l)[1]);
            }
        }
        Some((Literal::Boolean(b[pos + 1] == 1), pos + 2))
    } else if tag == 2 {
        if n - pos < 2 {
            proof {
                if live {
                    assert(false);
                }
            }
            return None;
        }
        let len = b[pos + 1] as usize;
        if n - pos < 2 + len {
            proof {
                if live {
                    assert(false);
                }
            }
            return None;
        }
        let s = read_token(b, pos + 2, len);
        proof {
            if live {
                let l = w->0;
                let t = l->Field_0;
                assert(b@[pos + 1] == lit_bytes(l)[1]);
                assert(len == t.len());
                assert(b@.subrange(pos + 2, pos + 2 + t.len()) =~= lit_bytes(l).subrange(
                    2,
                    2 + t.len() as int,
                ));
                assert(lit_bytes(l).subrange(2, 2 + t.len() as int) =~= chars_bytes(t));
            }
        }
        Some((Literal::Field(s), pos + 2 + len))
    } else if tag == 3 {
        if n - pos < 2 {
            proof {
                if live {
                    assert(false);
                }
            }
            return None;
        }
        let len = b[pos + 1] as usize;
        if n - pos < 2 + len {
            proof {
                if live {
                    assert(false);
                }
            }
            return None;
        }
        let s = read_token(b, pos + 2, len);
        proof {
            if live {
                let l = w->0;
                let t = l->Group_0;
                assert(b@[pos + 1] == lit_bytes(l)[1]);
                assert(len == t.len());
                assert(b@.subrange(pos + 2, pos + 2 + t.len()) =~= lit_bytes(l).subrange(
                    2,
                    2 + t.len() as int,
                ));
                assert(lit_bytes(l).subrange(2, 2 + t.len() as int) =~= chars_bytes(t));
            }
        }
        Some((Literal::Group(s), pos + 2 + len))
    } else if tag == 4 {
        if n - pos < 9 {
            proof {
                if live {
                    assert(false);
                }
            }
            return None;
        }
        let v = crate::num::u64_from_le_bytes(b, pos + 1);
        proof {
            if live {
                let l = w->0;
                let x = l->Scalar_0;
                crate::num::lemma_pow256_8();
                crate::num::lemma_le_of_val(x as nat, 8);
                assert(b@.subrange(pos + 1, pos + 9) =~= lit_bytes(l).subrange(1, 9));
                assert(lit_bytes(l).subrange(1, 9) =~= le_of(x as nat, 8));
                crate::num::lemma_le_of_val(v as nat, 8);
            }
        }
        Some((Literal::Scalar(v), pos + 9))
    } else if tag == 5 {
        if n - pos < 9 {
            proof {
                if live {
                    assert(false);
                }
            }
            return None;
        }
        let v = crate::num::u64_from_le_bytes(b, pos + 1);
        proof {
            if live {
                let l = w->0;
                let x = l->U64_0;
                crate::num::lemma_pow256_8();
                crate::num::lemma_le_of_val(x as nat, 8);
                assert(b@.subrange(pos + 1, pos + 9) =~= lit_bytes(l).subrange(1, 9));
                assert(lit_bytes(l).subrange(1, 9) =~= le_of(x as nat, 8));
                crate::num::lemma_le_of_val(v as nat, 8);
            }
        }
        Some((Literal::U64(v), pos + 9))
    } else {
        proof {
            if live {
                assert(false);
            }
        }
        None
    }
}

/// Reads `len` bytes at `pos` as an ASCII token.
fn read_token(b: &Vec<u8>, pos: usize, len: usize) -> (r: String)
    requires
        pos + len <= b@.len(),
    ensures
        r@ == bytes_chars(b@.subrange(pos as int, pos + len)),
{
    let bn = b.len();
    let mut cs: Vec<char> = Vec::new();
    let mut i: usize = 0;
    while i < len
        invariant
            i <= len,
            pos + len <= bn,
            bn == b@.len(),
            cs@ =~= bytes_chars(b@.subrange(pos as int, pos + i)),
        decreases len - i,
    {
        cs.push(b[pos + i] as char);
        i = i + 1;
        proof {
            assert(cs@ =~= bytes_chars(b@.subrange(pos as int, pos + i)));
        }
    }
    crate::strings::chars_to_string(&cs)
}

/// The size of a literal's encoding is at least one byte.
pub proof fn lemma_lit_bytes_len(l: LitV)
    ensures
        lit_bytes(l).len() >= 1,
{
}

/// The size of a plaintext's encoding is at least two bytes.
pub proof fn lemma_pt_bytes_len(p: PtV)
    ensures
        pt_bytes(p).len() >= 2,
{
    match p {
        PtV::Literal(l) => {
            lemma_lit_bytes_len(l);
        },
        PtV::Struct(_) => {
        },
    }
}

/// Reads one plaintext starting at `pos`. If the ghost witness's encoding
/// sits at `pos` and the fuel covers it, the read succeeds with exactly
/// that plaintext.
fn raw_read_pt(b: &Vec<u8>, pos: usize, fuel: usize, Ghost(w): Ghost<Option<PtV>>) -> (r: Option<
    (Plaintext, usize),
>)
    ensures
        r is Some ==> pos < (r->0).1 <= b@.len(),
        (w matches Some(p) && pt_at(b@, pos as int, p) && fuel >= pt_bytes(p).len()) ==> (
        r matches Some(q) && q.0@ == w->0 && q.1 == pos + pt_bytes(w->0).len()),
    decreases fuel,
{
    let ghost live = w matches Some(p) && pt_at(b@, pos as int, p) && fuel >= pt_bytes(
        p,
    ).len();
    proof {
        if live {
            lemma_pt_bytes_len(w->0);
            assert(b@[pos as int] == pt_bytes(w->0)[0]);
        }
    }
    let n = b.len();
    if pos >= n {
        proof {
            if live {
                assert(false);
            }
        }
        return None;
    }
    if fuel == 0 {
        proof {
            if live {
                assert(false);
            }
        }
        return None;
    }
    let tag = b[pos];
    if tag == 0 {
        let ghost sub: Option<LitV> = if live && w->0 is Literal {
            Some(w->0->Literal_0)
        } else {
            None
        };
        proof {
            if live {
                assert(w->0 is Literal);
                let l0 = w->0->Literal_0;
                assert(b@.subrange(pos + 1, pos + 1 + lit_bytes(l0).len() as int)
                    =~= pt_bytes(w->0).subrange(1, 1 + lit_bytes(l0).len() as int));
                assert(pt_bytes(w->0).subrange(1, 1 + lit_bytes(l0).len() as int) =~= lit_bytes(
                    l0,
                ));
                assert(lit_at(b@, pos as int + 1, l0));
            }
        }
        match raw_read_lit(b, pos + 1, Ghost(sub)) {
            Some((l, end)) => Some((Plaintext::Literal(l), end)),
            None => None,
        }
    } else if tag == 1 {
        proof {
            if live {
                assert(w->0 is Struct);
            }
        }
        if n - pos < 2 {
            proof {
                if live {
                    assert(false);
                }
            }
            return None;
        }
        let count = b[pos + 1] as usize;
        let mut ms: Vec<(Identifier, Plaintext)> = Vec::new();
        let mut cur: usize = pos + 2;
        let mut k: usize = 0;
        proof {
            if live {
                let p = w->0;
                let pms = p->Struct_0;
                assert(b@[pos + 1] == pt_bytes(p)[1]);
                assert(pt_bytes(p)[1] == pms.len() as u8);
                assert(count == pms.len());
                assert(b@.subrange(pos + 2, pos + pt_bytes(p).len() as int) =~= pt_bytes(
                    p,
                ).subrange(2, pt_bytes(p).len() as int));
                assert(pt_bytes(p).subrange(2, pt_bytes(p).len() as int) =~= pt_members_bytes(
                    pms,
                    0,
                ));
                assert(pt_members_view(ms@) =~= pms.subrange(0, 0));
            }
        }
        while k < count
            invariant
                pos < cur <= b@.len(),
                n == b@.len(),
                fuel >= 1,
                k <= count,
                live == (w matches Some(p) && pt_at(b@, pos as int, p) && fuel >= pt_bytes(
                    p,
                ).len()),
                live ==> ({
                    let p = w->0;
                    let pms = p->Struct_0;
                    &&& p is Struct
                    &&& count == pms.len()
                    &&& k <= pms.len()
                    &&& pt_members_view(ms@) == pms.subrange(0, k as int)
                    &&& cur == pos + pt_bytes(p).len() - pt_members_bytes(pms, k as int).len()
                    &&& b@.subrange(cur as int, pos + pt_bytes(p).len() as int)
                        == pt_members_bytes(pms, k as int)
                }),
            decreases count - k,
        {
            proof {
                if live {
                    let p = w->0;
                    let pms = p->Struct_0;
                    lemma_ptv_members_wf_index(pms, k as int);
                    lemma_valid_ident_ascii(pms[k as int].0);
                    lemma_bytes_chars_of_chars(pms[k as int].0);
                    lemma_pt_bytes_len(pms[k as int].1);
                    let suf = pt_members_bytes(pms, k as int);
                    assert(suf == seq![pms[k as int].0.len() as u8].add(
                        chars_bytes(pms[k as int].0),
                    ).add(pt_bytes(pms[k as int].1)).add(pt_members_bytes(pms, k as int + 1)));
                    assert(b@[cur as int] == suf[0]);
                }
            }
            if cur >= n {
                proof {
                    if live {
                        assert(false);
                    }
                }
                return None;
            }
            let name_len = b[cur] as usize;
            if n - cur < 1 + name_len {
                proof {
                    if live {
                        assert(false);
                    }
                }
                return None;
            }
            let name_s = read_token(b, cur + 1, name_len);
            proof {
                if live {
                    let p = w->0;
                    let pms = p->Struct_0;
                    let nm = pms[k as int].0;
                    assert(name_len == nm.len());
                    assert(b@.subrange(cur + 1, cur + 1 + nm.len() as int) =~= pt_members_bytes(
                        pms,
                        k as int,
                    ).subrange(1, 1 + nm.len() as int));
                    assert(pt_members_bytes(pms, k as int).subrange(1, 1 + nm.len() as int)
                        =~= chars_bytes(nm));
                    assert(name_s@ == nm);
                }
            }
            let name = match Identifier::from_text(name_s.as_str()) {
                Some(id) => id,
                None => {
                    proof {
                        if live {
                            assert(false);
                        }
                    }
                    return None;
                },
            };
            let ghost subw: Option<PtV> = if live {
                Some(w->0->Struct_0[k as int].1)
            } else {
                None
            };
            proof {
                if live {
                    let p = w->0;
                    let pms = p->Struct_0;
                    let mk = pms[k as int].1;
                    let off = cur + 1 + name_len;
                    assert(b@.subrange(off as int, off + pt_bytes(mk).len() as int)
                        =~= pt_members_bytes(pms, k as int).subrange(
                        1 + name_len as int,
                        1 + name_len + pt_bytes(mk).len() as int,
                    ));
                    assert(pt_members_bytes(pms, k as int).subrange(
                        1 + name_len as int,
                        1 + name_len + pt_bytes(mk).len() as int,
                    ) =~= pt_bytes(mk));
                    assert(pt_at(b@, off as int, mk));
                    assert(fuel - 1 >= pt_bytes(mk).len());
                }
            }
            let inner = match raw_read_pt(b, cur + 1 + name_len, fuel - 1, Ghost(subw)) {
                Some((p, end)) => (p, end),
                None => {
                    proof {
                        if live {
                            assert(false);
                        }
                    }
                    return None;
                },
            };
            let ghost pre_ms = ms@;
            let ghost old_cur = cur as int;
            let ghost old_k = k as int;
            cur = inner.1;
            ms.push((name, inner.0));
            k = k + 1;
            proof {
                if live {
                    let p = w->0;
                    let pms = p->Struct_0;
                    let nm = pms[old_k].0;
                    let mk = pms[old_k].1;
                    lemma_pt_members_view_snoc(pre_ms, (name, inner.0));
                    assert(name@ == nm && pt_view(inner.0) == mk);
                    assert(pms.subrange(0, old_k + 1) =~= pms.subrange(0, old_k).push(
                        pms[old_k],
                    ));
                    assert(pt_members_view(ms@) == pms.subrange(0, k as int));
                    assert(cur == old_cur + 1 + nm.len() + pt_bytes(mk).len());
                    assert(b@.subrange(cur as int, pos + pt_bytes(p).len() as int)
                        =~= pt_members_bytes(pms, old_k).subrange(
                        1 + nm.len() + pt_bytes(mk).len() as int,
                        pt_members_bytes(pms, old_k).len() as int,
                    ));
                    assert(pt_members_bytes(pms, old_k).subrange(
                        1 + nm.len() + pt_bytes(mk).len() as int,
                        pt_members_bytes(pms, old_k).len() as int,
                    ) =~= pt_members_bytes(pms, old_k + 1));
                }
            }
        }
        proof {
            if live {
                let p = w->0;
                let pms = p->Struct_0;
                assert(pt_members_bytes(pms, count as int).len() == 0);
                assert(pms.subrange(0, count as int) =~= pms);
                assert(pt_view(Plaintext::Struct(ms)) == p) by {
                    assert(pt_members_view(ms@) == pms);
                }
                assert(cur == pos + pt_bytes(p).len());
            }
        }
        Some((Plaintext::Struct(ms), cur))
    } else {
        proof {
            if live {
                assert(false);
            }
        }
        None
    }
}

/// Reads one value: tag, then plaintext or record entries. If the buffer is
/// exactly the ghost witness's encoding, the read succeeds with it.
fn raw_read_value(b: &Vec<u8>, Ghost(w): Ghost<Option<ValV>>) -> (r: Option<Value>)
    ensures
        (w matches Some(v) && value_at(b@, v)) ==> (r matches Some(q) && q@ == w->0),
{
    let ghost live = w matches Some(v) && value_at(b@, v);
    proof {
        if live {
            assert(b@[0] == value_bytes(w->0)[0]);
        }
    }
    let n = b.len();
    if n == 0 {
        proof {
            if live {
                assert(false);
            }
        }
        return None;
    }
    let tag = b[0];
    if tag == 0 {
        let ghost sub: Option<PtV> = if live && w->0 is Plaintext {
            Some(w->0->Plaintext_0)
        } else {
            None
        };
        proof {
            if live {
                assert(w->0 is Plaintext);
                let p0 = w->0->Plaintext_0;
                lemma_pt_bytes_len(p0);
                assert(b@.subrange(1, 1 + pt_bytes(p0).len() as int) =~= value_bytes(
                    w->0,
                ).subrange(1, 1 + pt_bytes(p0).len() as int));
                assert(value_bytes(w->0).subrange(1, 1 + pt_bytes(p0).len() as int) =~= pt_bytes(
                    p0,
                ));
                assert(pt_at(b@, 1, p0));
                assert(n == 1 + pt_bytes(p0).len());
            }
        }
        match raw_read_pt(b, 1, n, Ghost(sub)) {
            Some((p, end)) => {
                if end == n {
                    Some(Value::Plaintext(p))
                } else {
                    proof {
                        if live {
                            assert(false);
                        }
                    }
                    None
                }
            },
            None => {
                proof {
                    if live {
                        assert(false);
                    }
                }
                None
            },
        }
    } else if tag == 1 {
        proof {
            if live {
                assert(w->0 is Record);
            }
        }
        if n < 2 {
            proof {
                if live {
                    assert(false);
                }
            }
            return None;
        }
        let count = b[1] as usize;
        let mut es: Vec<(Identifier, crate::value::Entry)> = Vec::new();
        let mut cur: usize = 2;
        let mut k: usize = 0;
        proof {
            if live {
                let v = w->0;
                let ves = v->Record_0;
                assert(b@[1] == value_bytes(v)[1]);
                assert(value_bytes(v)[1] == ves.len() as u8);
                assert(count == ves.len());
                assert(b@.subrange(2, n as int) =~= value_bytes(v).subrange(
                    2,
                    value_bytes(v).len() as int,
                ));
                assert(value_bytes(v).subrange(2, value_bytes(v).len() as int)
                    =~= rec_entries_bytes(ves, 0));
                assert(rec_entries_view(es@) =~= ves.subrange(0, 0));
            }
        }
        while k < count
            invariant
                0 < cur <= b@.len(),
                n == b@.len(),
                k <= count,
                live == (w matches Some(v) && value_at(b@, v)),
                live ==> ({
                    let v = w->0;
                    let ves = v->Record_0;
                    &&& v is Record
                    &&& count == ves.len()
                    &&& k <= ves.len()
                    &&& rec_entries_view(es@) == ves.subrange(0, k as int)
                    &&& cur == n - rec_entries_bytes(ves, k as int).len()
                    &&& b@.subrange(cur as int, n as int) == rec_entries_bytes(ves, k as int)
                }),
            decreases count - k,
        {
            proof {
                if live {
                    let v = w->0;
                    let ves = v->Record_0;
                    lemma_valv_entries_wf_index(ves, k as int);
                    lemma_valid_ident_ascii(ves[k as int].0);
                    lemma_bytes_chars_of_chars(ves[k as int].0);
                    lemma_pt_bytes_len(ves[k as int].1.pt);
                    let suf = rec_entries_bytes(ves, k as int);
                    assert(suf == seq![ves[k as int].0.len() as u8].add(
                        chars_bytes(ves[k as int].0),
                    ).add(seq![mode_byte(ves[k as int].1.vis)]).add(
                        pt_bytes(ves[k as int].1.pt),
                    ).add(rec_entries_bytes(ves, k as int + 1)));
                    assert(b@[cur as int] == suf[0]);
                }
            }
            if cur >= n {
                proof {
                    if live {
                        assert(false);
                    }
                }
                return None;
            }
            let name_len = b[cur] as usize;
            if n - cur < 1 + name_len + 1 {
                proof {
                    if live {
                        assert(false);
                    }
                }
                return None;
            }
            let name_s = read_token(b, cur + 1, name_len);
            proof {
                if live {
                    let v = w->0;
                    let ves = v->Record_0;
                    let nm = ves[k as int].0;
                    assert(name_len == nm.len());
                    assert(b@.subrange(cur + 1, cur + 1 + nm.len() as int) =~= rec_entries_bytes(
                        ves,
                        k as int,
                    ).subrange(1, 1 + nm.len() as int));
                    assert(rec_entries_bytes(ves, k as int).subrange(1, 1 + nm.len() as int)
                        =~= chars_bytes(nm));
                    assert(name_s@ == nm);
                    assert(b@[cur + 1 + name_len] == rec_entries_bytes(ves, k as int)[1
                        + nm.len() as int]);
                    assert(rec_entries_bytes(ves, k as int)[1 + nm.len() as int] == mode_byte(
                        ves[k as int].1.vis,
                    ));
                }
            }
            let name = match Identifier::from_text(name_s.as_str()) {
                Some(id) => id,
                None => {
                    proof {
                        if live {
                            assert(false);
                        }
                    }
                    return None;
                },
            };
            let vb = b[cur + 1 + name_len];
            let vis = if vb == 0 {
                Mode::Constant
            } else if vb == 1 {
                Mode::Public
            } else if vb == 2 {
                Mode::Private
            } else {
                proof {
                    if live {
                        assert(false);
                    }
                }
                return None;
            };
            let ghost subw: Option<PtV> = if live {
                Some(w->0->Record_0[k as int].1.pt)
            } else {
                None
            };
            proof {
                if live {
                    let v = w->0;
                    let ves = v->Record_0;
                    let pk = ves[k as int].1.pt;
                    let off = cur + 2 + name_len;
                    assert(b@.subrange(off as int, off + pt_bytes(pk).len() as int)
                        =~= rec_entries_bytes(ves, k as int).subrange(
                        2 + name_len as int,
                        2 + name_len + pt_bytes(pk).len() as int,
                    ));
                    assert(rec_entries_bytes(ves, k as int).subrange(
                        2 + name_len as int,
                        2 + name_len + pt_bytes(pk).len() as int,
                    ) =~= pt_bytes(pk));
                    assert(pt_at(b@, off as int, pk));
                    assert(n >= pt_bytes(pk).len());
                }
            }
            let inner = match raw_read_pt(b, cur + 2 + name_len, n, Ghost(subw)) {
                Some((p, end)) => (p, end),
                None => {
                    proof {
                        if live {
                            assert(false);
                        }
                    }
                    return None;
                },
            };
            let ghost pre_es = es@;
            let ghost old_cur = cur as int;
            let ghost old_k = k as int;
            cur = inner.1;
            es.push((name, crate::value::Entry { vis, plaintext: inner.0 }));
            k = k + 1;
            proof {
                if live {
                    let v = w->0;
                    let ves = v->Record_0;
                    let nm = ves[old_k].0;
                    let pk = ves[old_k].1.pt;
                    let ent = crate::value::Entry { vis, plaintext: inner.0 };
                    lemma_rec_entries_view_snoc(pre_es, (name, ent));
                    assert(vis == ves[old_k].1.vis);
                    assert(ent@ == ves[old_k].1);
                    assert(ves.subrange(0, old_k + 1) =~= ves.subrange(0, old_k).push(
                        ves[old_k],
                    ));
                    assert(rec_entries_view(es@) == ves.subrange(0, k as int));
                    assert(cur == old_cur + 2 + nm.len() + pt_bytes(pk).len());
                    assert(b@.subrange(cur as int, n as int) =~= rec_entries_bytes(
                        ves,
                        old_k,
                    ).subrange(
                        2 + nm.len() + pt_bytes(pk).len() as int,
                        rec_entries_bytes(ves, old_k).len() as int,
                    ));
                    assert(rec_entries_bytes(ves, old_k).subrange(
                        2 + nm.len() + pt_bytes(pk).len() as int,
                        rec_entries_bytes(ves, old_k).len() as int,
                    ) =~= rec_entries_bytes(ves, old_k + 1));
                }
            }
        }
        proof {
            if live {
                let v = w->0;
                let ves = v->Record_0;
                assert(rec_entries_bytes(ves, count as int).len() == 0);
                assert(ves.subrange(0, count as int) =~= ves);
                assert(cur == n);
                assert(Value::Record(es)@ == v) by {
                    assert(rec_entries_view(es@) == ves);
                }
            }
        }
        if cur == n {
            Some(Value::Record(es))
        } else {
            None
        }
    } else {
        proof {
            if live {
                assert(false);
            }
        }
        None
    }
}

/// Decodes a value from its compact binary form, succeeding exactly on the
/// canonical encodings of well-formed values: a successful decode certifies
/// that the input is the returned value's encoding, and the encoding of
/// every well-formed value decodes back to it.
pub fn value_from_bytes(b: &Vec<u8>) -> (r: Option<Value>)
    ensures
        match r {
            Some(v) => crate::value::valv_wf(v@) && b@ == value_bytes(v@),
            None => true,
        },
        forall|w: ValV|
            crate::value::valv_wf(w) && b@ == value_bytes(w) ==> (r is Some && r->0@ == w),
{
    let ghost witness: Option<ValV> = if exists|v: ValV|
        crate::value::valv_wf(v) && b@ == value_bytes(v) {
        Some(choose|v: ValV| crate::value::valv_wf(v) && b@ == value_bytes(v))
    } else {
        None
    };
    let candidate = match raw_read_value(b, Ghost(witness)) {
        Some(v) => v,
        None => {
            return None;
        },
    };
    if !crate::text::value_wf_check(&candidate) {
        return None;
    }
    let enc = value_to_bytes(&candidate);
    if bytes_eq(&enc, b) {
        proof {
            assert forall|w: ValV| crate::value::valv_wf(w) && b@ == value_bytes(w)
                implies candidate@ == w by {
                lemma_value_bytes_injective(w, candidate@);
            }
        }
        Some(candidate)
    } else {
        proof {
            if witness is Some {
                assert(false);
            }
        }
        None
    }
}

/// Decodes a value from its framed binary form: the prefix must be the
/// little-endian length of the rest, which must be the compact encoding.
/// Succeeds exactly on the framed encodings of well-formed values.
pub fn value_from_bytes_framed(b: &Vec<u8>) -> (r: Option<Value>)
    ensures
        match r {
            Some(v) => crate::value::valv_wf(v@) && b@ == framed_bytes(v@),
            None => true,
        },
        forall|w: ValV|
            crate::value::valv_wf(w) && b@ == framed_bytes(w) ==> (r is Some && r->0@ == w),
{
    let ghost fwitness: Option<ValV> = if exists|v: ValV|
        crate::value::valv_wf(v) && b@ == framed_bytes(v) {
        Some(choose|v: ValV| crate::value::valv_wf(v) && b@ == framed_bytes(v))
    } else {
        None
    };
    let n = b.len();
    proof {
        if fwitness is Some {
            let v = fwitness->0;
            crate::num::lemma_pow256_8();
            crate::num::lemma_le_of_len(value_bytes(v).len(), 8);
            assert(b@.len() == 8 + value_bytes(v).len());
            assert(value_bytes(v).len() < crate::num::pow256(8));
            crate::num::lemma_le_of_val(value_bytes(v).len(), 8);
        }
    }
    if n < 8 {
        proof {
            if fwitness is Some {
            let v = fwitness->0;
                assert(false);
            }
        }
        return None;
    }
    let len = crate::num::u64_from_le_bytes(b, 0);
    proof {
        if fwitness is Some {
            let v = fwitness->0;
            let bl = value_bytes(v).len();
            assert(b@.subrange(0, 8) =~= le_of(bl, 8));
            assert(b@.len() == 8 + bl);
            assert(bl < crate::num::pow256(8)) by {
                crate::num::lemma_pow256_8();
            }
            assert(le_val(b@.subrange(0, 8)) == bl) by {
                crate::num::lemma_le_of_val(bl, 8);
            }
            assert(len as nat == bl);
        }
    }
    if len != (n - 8) as u64 {
        proof {
            if fwitness is Some {
            let v = fwitness->0;
                assert(false);
            }
        }
        return None;
    }
    let mut body: Vec<u8> = Vec::new();
    let mut i: usize = 8;
    while i < n
        invariant
            8 <= i <= n,
            n == b@.len(),
            body@ =~= b@.subrange(8, i as int),
        decreases n - i,
    {
        body.push(b[i]);
        i = i + 1;
        proof {
            assert(body@ =~= b@.subrange(8, i as int));
        }
    }
    proof {
        if fwitness is Some {
            let v = fwitness->0;
            assert(body@ =~= b@.subrange(8, n as int));
            assert(b@.subrange(8, n as int) =~= value_bytes(v));
        }
    }
    match value_from_bytes(&body) {
        Some(v) => {
            proof {
                assert(body@ =~= b@.subrange(8, n as int));
                assert(value_bytes(v@).len() == (n - 8) as nat);
                assert(le_of(len as nat, 8) =~= b@.subrange(0, 8));
                assert(b@ =~= b@.subrange(0, 8).add(b@.subrange(8, n as int)));
                assert(b@ =~= framed_bytes(v@));
                assert forall|w: ValV| crate::value::valv_wf(w) && b@ == framed_bytes(w)
                    implies v@ == w by {
                    lemma_framed_bytes_injective(w, v@);
                }
            }
            Some(v)
        },
        None => {
            proof {
                if fwitness is Some {
            let v = fwitness->0;
                    assert(false);
                }
            }
            None
        },
    }
}

} // verus!
