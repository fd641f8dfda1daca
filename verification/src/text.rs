//! The human-readable encoding of values: a program-source-like syntax for
//! structs and records with per-entry visibility suffixes, and its parser.
//! A parsed value is accepted only after its canonical printed form has been
//! recomputed and compared with the input, so a successful parse certifies
//! that the input is exactly the value's canonical text; and the canonical
//! text of every well-formed value is proved to parse successfully.

use vstd::prelude::*;
use crate::ident::{Identifier, is_valid_ident, is_ident_char, ident_char};
use crate::register::{ident_run_end, lemma_ident_run_unique, digit_run_end,
    lemma_digit_run_unique};
use crate::mode::Mode;
use crate::num::{dec_digits, u64_to_dec, char_to_digit, is_canon_dec};
use crate::scalar::SCALAR_MODULUS;
use crate::strings::{str_to_chars, chars_to_string};
use crate::value::{Literal, Plaintext, Value, LitV, PtV, ValV, pt_view, pt_members_view,
    lemma_ptv_members_wf_index, lemma_valv_entries_wf_index,
    rec_entries_view, lemma_pt_members_view, lemma_rec_entries_view, EntryV, litv_wf, ptv_wf,
    valv_wf, ptv_members_wf, valv_entries_wf, is_valid_address, is_addr_char, ADDRESS_LEN,
    MAX_DIGITS, MAX_MEMBERS};

verus! {

/// The canonical text of a literal.
pub open spec fn lit_text(l: LitV) -> Seq<char> {
    match l {
        LitV::Address(s) => s,
        LitV::Boolean(b) => if b {
            seq!['t', 'r', 'u', 'e']
        } else {
            seq!['f', 'a', 'l', 's', 'e']
        },
        LitV::Field(s) => s.add(seq!['f', 'i', 'e', 'l', 'd']),
        LitV::Group(s) => s.add(seq!['g', 'r', 'o', 'u', 'p']),
        LitV::Scalar(v) => dec_digits(v as nat).add(seq!['s', 'c', 'a', 'l', 'a', 'r']),
        LitV::U64(v) => dec_digits(v as nat).add(seq!['u', '6', '4']),
    }
}

/// Two spaces of indentation per nesting depth.
pub open spec fn indent_text(d: nat) -> Seq<char>
    decreases d,
{
    if d == 0 {
        Seq::empty()
    } else {
        seq![' ', ' '].add(indent_text((d - 1) as nat))
    }
}

pub proof fn lemma_indent_text(d: nat)
    ensures
        indent_text(d).len() == 2 * d,
        forall|j: int| 0 <= j < 2 * d ==> indent_text(d)[j] == ' ',
    decreases d,
{
    if d > 0 {
        lemma_indent_text((d - 1) as nat);
    }
}

/// The visibility suffix of a record entry.
pub open spec fn vis_text(m: Mode) -> Seq<char> {
    match m {
        Mode::Constant => seq!['.', 'c', 'o', 'n', 's', 't', 'a', 'n', 't'],
        Mode::Public => seq!['.', 'p', 'u', 'b', 'l', 'i', 'c'],
        Mode::Private => seq!['.', 'p', 'r', 'i', 'v', 'a', 't', 'e'],
    }
}

/// The canonical text of a plaintext at nesting depth `d`.
pub open spec fn pt_text(p: PtV, d: nat) -> Seq<char>
    decreases p, 0int,
{
    match p {
        PtV::Literal(l) => lit_text(l),
        PtV::Struct(ms) => seq!['{', '\n'].add(pt_members_text(ms, d + 1, 0)).add(
            seq!['\n'],
        ).add(indent_text(d)).add(seq!['}']),
    }
}

/// The members of a struct, one per line, comma-separated.
pub open spec fn pt_members_text(ms: Seq<(Seq<char>, PtV)>, d: nat, i: int) -> Seq<char>
    decreases ms, ms.len() - i,
{
    if i < 0 || i >= ms.len() {
        Seq::empty()
    } else {
        (if i == 0 {
            Seq::empty()
        } else {
            seq![',', '\n']
        }).add(indent_text(d)).add(ms[i].0).add(seq![':', ' ']).add(pt_text(ms[i].1, d)).add(
            pt_members_text(ms, d, i + 1),
        )
    }
}

/// The entries of a record, each with its visibility suffix.
pub open spec fn rec_entries_text(es: Seq<(Seq<char>, EntryV)>, d: nat, i: int) -> Seq<char>
    decreases es.len() - i,
{
    if i < 0 || i >= es.len() {
        Seq::empty()
    } else {
        (if i == 0 {
            Seq::empty()
        } else {
            seq![',', '\n']
        }).add(indent_text(d)).add(es[i].0).add(seq![':', ' ']).add(
            pt_text(es[i].1.pt, d),
        ).add(vis_text(es[i].1.vis)).add(rec_entries_text(es, d, i + 1))
    }
}

/// The canonical text of a value.
pub open spec fn value_text(v: ValV) -> Seq<char> {
    match v {
        ValV::Plaintext(p) => pt_text(p, 0),
        ValV::Record(es) => seq!['{', '\n'].add(rec_entries_text(es, 1, 0)).add(
            seq!['\n', '}'],
        ),
    }
}

// ---------------------------------------------------------------------------
// The printer.
// ---------------------------------------------------------------------------

fn write_str_chars(out: &mut Vec<char>, s: &String) -> (u: ())
    ensures
        final(out)@ == old(out)@.add(s@),
{
    let cs = str_to_chars(s.as_str());
    write_char_seq(out, &cs);
}

fn write_char_seq(out: &mut Vec<char>, cs: &Vec<char>) -> (u: ())
    ensures
        final(out)@ == old(out)@.add(cs@),
{
    let n = cs.len();
    let mut i: usize = 0;
    while i < n
        invariant
            i <= n,
            n == cs@.len(),
            out@ =~= old(out)@.add(cs@.subrange(0, i as int)),
        decreases n - i,
    {
        out.push(cs[i]);
        i = i + 1;
        proof {
            assert(out@ =~= old(out)@.add(cs@.subrange(0, i as int)));
        }
    }
    proof {
        assert(cs@.subrange(0, n as int) =~= cs@);
    }
}

/// Appends the canonical text of a literal.
fn write_lit_text(out: &mut Vec<char>, l: &Literal) -> (u: ())
    ensures
        final(out)@ == old(out)@.add(lit_text(l@)),
{
    match l {
        Literal::Address(s) => {
            write_str_chars(out, s);
        },
        Literal::Boolean(b) => {
            if *b {
                out.push('t');
                out.push('r');
                out.push('u');
                out.push('e');
            } else {
                out.push('f');
                out.push('a');
                out.push('l');
                out.push('s');
                out.push('e');
            }
            proof {
                assert(out@ =~= old(out)@.add(lit_text(l@)));
            }
        },
        Literal::Field(s) => {
            write_str_chars(out, s);
            out.push('f');
            out.push('i');
            out.push('e');
            out.push('l');
            out.push('d');
            proof {
                assert(out@ =~= old(out)@.add(lit_text(l@)));
            }
        },
        Literal::Group(s) => {
            write_str_chars(out, s);
            out.push('g');
            out.push('r');
            out.push('o');
            out.push('u');
            out.push('p');
            proof {
                assert(out@ =~= old(out)@.add(lit_text(l@)));
            }
        },
        Literal::Scalar(v) => {
            let digits = u64_to_dec(*v);
            write_char_seq(out, &digits);
            out.push('s');
            out.push('c');
            out.push('a');
            out.push('l');
            out.push('a');
            out.push('r');
            proof {
                assert(out@ =~= old(out)@.add(lit_text(l@)));
            }
        },
        Literal::U64(v) => {
            let digits = u64_to_dec(*v);
            write_char_seq(out, &digits);
            out.push('u');
            out.push('6');
            out.push('4');
            proof {
                assert(out@ =~= old(out)@.add(lit_text(l@)));
            }
        },
    }
}

/// One more level of indentation, in place.
fn indent_push(ind: &mut Vec<char>, Ghost(d): Ghost<nat>) -> (u: ())
    requires
        old(ind)@ == indent_text(d),
    ensures
        final(ind)@ == indent_text(d + 1),
{
    ind.push(' ');
    ind.push(' ');
    proof {
        lemma_indent_text(d);
        lemma_indent_text(d + 1);
        assert(ind@ =~= indent_text(d + 1));
    }
}

/// One level of indentation removed, in place.
fn indent_pop(ind: &mut Vec<char>, Ghost(d): Ghost<nat>) -> (u: ())
    requires
        old(ind)@ == indent_text(d + 1),
    ensures
        final(ind)@ == indent_text(d),
{
    proof {
        lemma_indent_text(d + 1);
    }
    let _c1 = ind.pop();
    let _c2 = ind.pop();
    proof {
        lemma_indent_text(d);
        assert(ind@ =~= indent_text(d));
    }
}

/// Appends the canonical text of a plaintext; `ind` holds the current
/// indentation.
fn write_pt_text(out: &mut Vec<char>, p: &Plaintext, ind: &mut Vec<char>, Ghost(d): Ghost<nat>) -> (u: ())
    requires
        old(ind)@ == indent_text(d),
    ensures
        final(out)@ == old(out)@.add(pt_text(pt_view(*p), d)),
        final(ind)@ == old(ind)@,
    decreases *p, 0int,
{
    match p {
        Plaintext::Literal(l) => {
            write_lit_text(out, l);
            proof {
                assert(out@ =~= old(out)@.add(pt_text(pt_view(*p), d)));
            }
        },
        Plaintext::Struct(ms) => {
            out.push('{');
            out.push('\n');
            indent_push(ind, Ghost(d));
            write_pt_members_text(out, ms, 0, ind, Ghost(d + 1));
            indent_pop(ind, Ghost(d));
            out.push('\n');
            write_char_seq_borrow(out, ind);
            out.push('}');
            proof {
                lemma_pt_members_view(ms@);
                assert(out@ =~= old(out)@.add(pt_text(pt_view(*p), d)));
            }
        },
    }
}

/// Appends the indentation characters.
fn write_char_seq_borrow(out: &mut Vec<char>, cs: &mut Vec<char>) -> (u: ())
    ensures
        final(out)@ == old(out)@.add(old(cs)@),
        final(cs)@ == old(cs)@,
{
    let n = cs.len();
    let mut i: usize = 0;
    while i < n
        invariant
            i <= n,
            n == cs@.len(),
            cs@ == old(cs)@,
            out@ =~= old(out)@.add(cs@.subrange(0, i as int)),
        decreases n - i,
    {
        out.push(cs[i]);
        i = i + 1;
        proof {
            assert(out@ =~= old(out)@.add(cs@.subrange(0, i as int)));
        }
    }
    proof {
        assert(cs@.subrange(0, n as int) =~= cs@);
    }
}

/// Appends the struct members from index `i` on.
fn write_pt_members_text(
    out: &mut Vec<char>,
    ms: &Vec<(Identifier, Plaintext)>,
    i: usize,
    ind: &mut Vec<char>,
    Ghost(d): Ghost<nat>,
) -> (u: ())
    requires
        i <= ms@.len(),
        old(ind)@ == indent_text(d),
    ensures
        final(out)@ == old(out)@.add(pt_members_text(pt_members_view(ms@), d, i as int)),
        final(ind)@ == old(ind)@,
    decreases *ms, ms@.len() - i,
{
    proof {
        lemma_pt_members_view(ms@);
    }
    if i == ms.len() {
        proof {
            assert(out@ =~= old(out)@.add(pt_members_text(pt_members_view(ms@), d, i as int)));
        }
        return ;
    }
    if i > 0 {
        out.push(',');
        out.push('\n');
    }
    write_char_seq_borrow(out, ind);
    let name_chars = str_to_chars(ms[i].0.as_str());
    write_char_seq(out, &name_chars);
    out.push(':');
    out.push(' ');
    write_pt_text(out, &ms[i].1, ind, Ghost(d));
    write_pt_members_text(out, ms, i + 1, ind, Ghost(d));
    proof {
        assert(name_chars@ == pt_members_view(ms@)[i as int].0);
        assert(out@ =~= old(out)@.add(pt_members_text(pt_members_view(ms@), d, i as int)));
    }
}

/// Appends the visibility suffix of a mode.
fn write_vis_text(out: &mut Vec<char>, m: Mode) -> (u: ())
    ensures
        final(out)@ == old(out)@.add(vis_text(m)),
{
    match m {
        Mode::Constant => {
            out.push('.');
            out.push('c');
            out.push('o');
            out.push('n');
            out.push('s');
            out.push('t');
            out.push('a');
            out.push('n');
            out.push('t');
        },
        Mode::Public => {
            out.push('.');
            out.push('p');
            out.push('u');
            out.push('b');
            out.push('l');
            out.push('i');
            out.push('c');
        },
        Mode::Private => {
            out.push('.');
            out.push('p');
            out.push('r');
            out.push('i');
            out.push('v');
            out.push('a');
            out.push('t');
            out.push('e');
        },
    }
    proof {
        assert(out@ =~= old(out)@.add(vis_text(m)));
    }
}

/// Appends the record entries from index `i` on.
#[verifier::rlimit(50)]
fn write_rec_entries_text(
    out: &mut Vec<char>,
    es: &Vec<(Identifier, crate::value::Entry)>,
    i: usize,
    ind: &mut Vec<char>,
    Ghost(d): Ghost<nat>,
) -> (u: ())
    requires
        i <= es@.len(),
        old(ind)@ == indent_text(d),
    ensures
        final(out)@ == old(out)@.add(rec_entries_text(rec_entries_view(es@), d, i as int)),
        final(ind)@ == old(ind)@,
    decreases es@.len() - i,
{
    proof {
        lemma_rec_entries_view(es@);
    }
    if i == es.len() {
        proof {
            assert(out@ =~= old(out)@.add(
                rec_entries_text(rec_entries_view(es@), d, i as int),
            ));
        }
        return ;
    }
    if i > 0 {
        out.push(',');
        out.push('\n');
    }
    write_char_seq_borrow(out, ind);
    let name_chars = str_to_chars(es[i].0.as_str());
    write_char_seq(out, &name_chars);
    out.push(':');
    out.push(' ');
    write_pt_text(out, &es[i].1.plaintext, ind, Ghost(d));
    write_vis_text(out, es[i].1.vis);
    write_rec_entries_text(out, es, i + 1, ind, Ghost(d));
    proof {
        assert(name_chars@ == rec_entries_view(es@)[i as int].0);
        assert(out@ =~= old(out)@.add(rec_entries_text(rec_entries_view(es@), d, i as int)));
    }
}

/// Prints a value in its canonical text form.
pub fn value_to_text(v: &Value) -> (r: String)
    ensures
        r@ == value_text(v@),
{
    let mut out: Vec<char> = Vec::new();
    let mut ind: Vec<char> = Vec::new();
    proof {
        assert(ind@ =~= indent_text(0));
    }
    match v {
        Value::Plaintext(p) => {
            write_pt_text(&mut out, p, &mut ind, Ghost(0));
            proof {
                assert(out@ =~= value_text(v@));
            }
        },
        Value::Record(es) => {
            out.push('{');
            out.push('\n');
            indent_push(&mut ind, Ghost(0));
            proof {
                lemma_rec_entries_view(es@);
            }
            write_rec_entries_text(&mut out, es, 0, &mut ind, Ghost(1));
            out.push('\n');
            out.push('}');
            proof {
                assert(out@ =~= value_text(v@));
            }
        },
    }
    chars_to_string(&out)
}

// ---------------------------------------------------------------------------
// Executable well-formedness checks.
// ---------------------------------------------------------------------------

/// Decides lexical validity of an identifier token.
pub fn ident_wf_check(id: &Identifier) -> (r: bool)
    ensures
        r == is_valid_ident(id@),
{
    let cs = str_to_chars(id.as_str());
    Identifier::from_chars(&cs).is_some()
}

/// Decides well-formedness of a literal.
pub fn lit_wf_check(l: &Literal) -> (r: bool)
    ensures
        r == litv_wf(l@),
{
    match l {
        Literal::Address(s) => {
            let cs = str_to_chars(s.as_str());
            let n = cs.len();
            if n != ADDRESS_LEN {
                return false;
            }
            if !(cs[0] == 'a' && cs[1] == 'l' && cs[2] == 'e' && cs[3] == 'o' && cs[4] == '1') {
                return false;
            }
            let mut i: usize = 5;
            while i < n
                invariant
                    5 <= i <= n,
                    n == cs@.len() == ADDRESS_LEN,
                    cs@ == s@,
                    *l is Address && l->Address_0 == *s,
                    forall|j: int| 5 <= j < i ==> is_addr_char(#[trigger] cs@[j]),
                decreases n - i,
            {
                let c = cs[i];
                let u = c as u32;
                if !((97 <= u && u <= 122) || char_to_digit(c).is_some()) {
                    proof {
                        assert(!is_addr_char(s@[i as int]));
                        assert(!is_valid_address(s@));
                    }
                    return false;
                }
                i = i + 1;
            }
            true
        },
        Literal::Boolean(_) => true,
        Literal::Field(s) => canon_dec_check(s),
        Literal::Group(s) => canon_dec_check(s),
        Literal::Scalar(v) => *v < SCALAR_MODULUS,
        Literal::U64(_) => true,
    }
}

/// Decides whether a token is a canonical decimal of bounded length.
fn canon_dec_check(s: &String) -> (r: bool)
    ensures
        r == (is_canon_dec(s@) && s@.len() <= MAX_DIGITS),
{
    let cs = str_to_chars(s.as_str());
    let n = cs.len();
    if n == 0 || n > MAX_DIGITS {
        return false;
    }
    if n > 1 && cs[0] == '0' {
        return false;
    }
    let mut i: usize = 0;
    while i < n
        invariant
            i <= n,
            n == cs@.len(),
            cs@ == s@,
            forall|j: int| 0 <= j < i ==> crate::num::is_dec_digit(#[trigger] cs@[j]),
        decreases n - i,
    {
        if char_to_digit(cs[i]).is_none() {
            proof {
                assert(!crate::num::is_dec_digit(s@[i as int]));
                assert(!is_canon_dec(s@));
            }
            return false;
        }
        i = i + 1;
    }
    true
}

/// Members are well-formed exactly when each member is.
pub proof fn lemma_ptv_members_wf_iff(ms: Seq<(Seq<char>, PtV)>)
    ensures
        ptv_members_wf(ms) <==> (forall|i: int|
            0 <= i < ms.len() ==> is_valid_ident((#[trigger] ms[i]).0) && ptv_wf(ms[i].1)),
    decreases ms,
{
    if ms.len() > 0 {
        let t = ms.subrange(1, ms.len() as int);
        lemma_ptv_members_wf_iff(t);
        assert(forall|i: int| 0 <= i < t.len() ==> #[trigger] t[i] == ms[i + 1]);
        if ptv_members_wf(ms) {
            assert(forall|i: int|
                0 <= i < ms.len() ==> is_valid_ident((#[trigger] ms[i]).0) && ptv_wf(
                    ms[i].1,
                )) by {
                assert(forall|i: int| 1 <= i < ms.len() ==> ms[i] == t[i - 1]);
            }
        }
    }
}

/// Entries are well-formed exactly when each entry is.
pub proof fn lemma_valv_entries_wf_iff(es: Seq<(Seq<char>, EntryV)>)
    ensures
        valv_entries_wf(es) <==> (forall|i: int|
            0 <= i < es.len() ==> is_valid_ident((#[trigger] es[i]).0) && ptv_wf(es[i].1.pt)),
    decreases es,
{
    if es.len() > 0 {
        let t = es.subrange(1, es.len() as int);
        lemma_valv_entries_wf_iff(t);
        assert(forall|i: int| 0 <= i < t.len() ==> #[trigger] t[i] == es[i + 1]);
        if valv_entries_wf(es) {
            assert(forall|i: int|
                0 <= i < es.len() ==> is_valid_ident((#[trigger] es[i]).0) && ptv_wf(
                    es[i].1.pt,
                )) by {
                assert(forall|i: int| 1 <= i < es.len() ==> es[i] == t[i - 1]);
            }
        }
    }
}

/// Decides well-formedness of a plaintext.
pub fn pt_wf_check(p: &Plaintext) -> (r: bool)
    ensures
        r == ptv_wf(pt_view(*p)),
    decreases *p,
{
    match p {
        Plaintext::Literal(l) => lit_wf_check(l),
        Plaintext::Struct(ms) => {
            proof {
                lemma_pt_members_view(ms@);
                lemma_ptv_members_wf_iff(pt_members_view(ms@));
            }
            let n = ms.len();
            if n == 0 || n > MAX_MEMBERS {
                return false;
            }
            let mut i: usize = 0;
            while i < n
                invariant
                    i <= n,
                    n == ms@.len(),
                    *p is Struct,
                    p->Struct_0 == *ms,
                    forall|j: int|
                        0 <= j < i ==> is_valid_ident((#[trigger] ms@[j]).0@) && ptv_wf(
                            pt_view(ms@[j].1),
                        ),
                decreases n - i,
            {
                if !ident_wf_check(&ms[i].0) {
                    proof {
                        lemma_pt_members_view(ms@);
                        lemma_ptv_members_wf_iff(pt_members_view(ms@));
                        assert(!is_valid_ident(pt_members_view(ms@)[i as int].0));
                    }
                    return false;
                }
                if !pt_wf_check(&ms[i].1) {
                    proof {
                        lemma_pt_members_view(ms@);
                        lemma_ptv_members_wf_iff(pt_members_view(ms@));
                        assert(!ptv_wf(pt_members_view(ms@)[i as int].1));
                    }
                    return false;
                }
                i = i + 1;
            }
            proof {
                lemma_pt_members_view(ms@);
                lemma_ptv_members_wf_iff(pt_members_view(ms@));
            }
            true
        },
    }
}

/// Decides well-formedness of a value.
pub fn value_wf_check(v: &Value) -> (r: bool)
    ensures
        r == valv_wf(v@),
{
    match v {
        Value::Plaintext(p) => pt_wf_check(p),
        Value::Record(es) => {
            proof {
                lemma_rec_entries_view(es@);
                lemma_valv_entries_wf_iff(rec_entries_view(es@));
            }
            let n = es.len();
            if n == 0 || n > MAX_MEMBERS {
                return false;
            }
            let mut i: usize = 0;
            while i < n
                invariant
                    i <= n,
                    n == es@.len(),
                    *v is Record,
                    v->Record_0 == *es,
                    forall|j: int|
                        0 <= j < i ==> is_valid_ident((#[trigger] es@[j]).0@) && ptv_wf(
                            pt_view(es@[j].1.plaintext),
                        ),
                decreases n - i,
            {
                if !ident_wf_check(&es[i].0) {
                    proof {
                        lemma_rec_entries_view(es@);
                        lemma_valv_entries_wf_iff(rec_entries_view(es@));
                        assert(!is_valid_ident(rec_entries_view(es@)[i as int].0));
                    }
                    return false;
                }
                if !pt_wf_check(&es[i].1.plaintext) {
                    proof {
                        lemma_rec_entries_view(es@);
                        lemma_valv_entries_wf_iff(rec_entries_view(es@));
                        assert(!ptv_wf(rec_entries_view(es@)[i as int].1.pt));
                    }
                    return false;
                }
                i = i + 1;
            }
            proof {
                lemma_rec_entries_view(es@);
                lemma_valv_entries_wf_iff(rec_entries_view(es@));
            }
            true
        },
    }
}

// ---------------------------------------------------------------------------
// The parser. The raw reader is permissive about whitespace; every accepted
// value is certified by comparing its canonical printed form to the input,
// and carries a ghost witness showing that canonical text always parses.
// ---------------------------------------------------------------------------

/// A whitespace character of the canonical layout.
pub open spec fn is_ws(c: char) -> bool {
    c == ' ' || c == '\n'
}

/// The first index at or after `i` that holds no whitespace.
pub open spec fn ws_end(s: Seq<char>, i: int) -> int
    decreases s.len() - i,
{
    if i < 0 || i >= s.len() || !is_ws(s[i]) {
        i
    } else {
        ws_end(s, i + 1)
    }
}

pub proof fn lemma_ws_end(s: Seq<char>, i: int)
    requires
        0 <= i <= s.len(),
    ensures
        i <= ws_end(s, i) <= s.len(),
        forall|j: int| i <= j < ws_end(s, i) ==> is_ws(#[trigger] s[j]),
        ws_end(s, i) < s.len() ==> !is_ws(s[ws_end(s, i)]),
    decreases s.len() - i,
{
    if i < s.len() && is_ws(s[i]) {
        lemma_ws_end(s, i + 1);
    }
}

/// An index bounding a whitespace run on both sides is the run's end.
pub proof fn lemma_ws_end_unique(s: Seq<char>, i: int, e: int)
    requires
        0 <= i <= e <= s.len(),
        forall|j: int| i <= j < e ==> is_ws(#[trigger] s[j]),
        e < s.len() ==> !is_ws(s[e]),
    ensures
        ws_end(s, i) == e,
{
    lemma_ws_end(s, i);
    let r = ws_end(s, i);
    if r < e {
        assert(is_ws(s[r]));
    }
    if r > e {
        assert(is_ws(s[e]));
    }
}

/// No bare-word character follows position `e`: a token ending there is
/// maximal.
pub open spec fn token_stop(s: Seq<char>, e: int) -> bool {
    e == s.len() || !is_ident_char(s[e])
}

/// The canonical text of the witness literal sits at `pos`, maximally.
pub open spec fn lit_text_at(s: Seq<char>, pos: int, l: LitV) -> bool {
    &&& litv_wf(l)
    &&& 0 <= pos
    &&& pos + lit_text(l).len() <= s.len()
    &&& s.subrange(pos, pos + lit_text(l).len() as int) == lit_text(l)
    &&& token_stop(s, pos + lit_text(l).len() as int)
}

/// The canonical text of the witness plaintext sits at `pos` at depth `d`,
/// and no word character follows it.
pub open spec fn pt_text_at(s: Seq<char>, pos: int, p: PtV, d: nat) -> bool {
    &&& ptv_wf(p)
    &&& 0 <= pos
    &&& pos + pt_text(p, d).len() <= s.len()
    &&& s.subrange(pos, pos + pt_text(p, d).len() as int) == pt_text(p, d)
    &&& token_stop(s, pos + pt_text(p, d).len() as int)
}

/// The digit part of a number literal's text.
pub open spec fn num_token(l: LitV) -> Seq<char> {
    match l {
        LitV::Field(s) => s,
        LitV::Group(s) => s,
        LitV::Scalar(v) => dec_digits(v as nat),
        LitV::U64(v) => dec_digits(v as nat),
        _ => Seq::empty(),
    }
}

/// The type suffix of a number literal's text.
pub open spec fn num_suffix(l: LitV) -> Seq<char> {
    match l {
        LitV::Field(_) => seq!['f', 'i', 'e', 'l', 'd'],
        LitV::Group(_) => seq!['g', 'r', 'o', 'u', 'p'],
        LitV::Scalar(_) => seq!['s', 'c', 'a', 'l', 'a', 'r'],
        LitV::U64(_) => seq!['u', '6', '4'],
        _ => Seq::empty(),
    }
}

/// Whether the literal is one of the number kinds.
pub open spec fn is_num_lit(l: LitV) -> bool {
    l is Field || l is Group || l is Scalar || l is U64
}

/// Every character of a well-formed literal's text is a word character, and
/// the text is non-empty; number literals start with their canonical digits.
pub proof fn lemma_lit_text_header(l: LitV)
    requires
        litv_wf(l),
    ensures
        lit_text(l).len() >= 1,
        forall|j: int| 0 <= j < lit_text(l).len() ==> is_ident_char(#[trigger] lit_text(l)[j]),
        l is Address ==> lit_text(l).len() == ADDRESS_LEN && lit_text(l)[0] == 'a',
        is_num_lit(l) ==> lit_text(l) == num_token(l).add(num_suffix(l)),
        is_num_lit(l) ==> num_token(l).len() >= 1 && (forall|j: int|
            0 <= j < num_token(l).len() ==> crate::num::is_dec_digit(
                #[trigger] num_token(l)[j],
            )),
        is_num_lit(l) ==> !crate::num::is_dec_digit(num_suffix(l)[0]),
{
    if l is Scalar {
        crate::num::lemma_dec_digits_val(l->Scalar_0 as nat);
    }
    if l is U64 {
        crate::num::lemma_dec_digits_val(l->U64_0 as nat);
    }
    let t = lit_text(l);
    match l {
        LitV::Address(s) => {
            assert(forall|j: int| 0 <= j < t.len() ==> is_ident_char(#[trigger] t[j])) by {
                assert(forall|j: int|
                    5 <= j < t.len() ==> is_addr_char(#[trigger] t[j]));
            }
        },
        LitV::Boolean(b) => {
        },
        LitV::Field(s) => {
            assert(forall|j: int| 0 <= j < t.len() ==> is_ident_char(#[trigger] t[j])) by {
                assert(forall|j: int|
                    0 <= j < s.len() ==> t[j] == s[j] && crate::num::is_dec_digit(
                        #[trigger] s[j],
                    ));
                assert(forall|j: int|
                    s.len() <= j < t.len() ==> #[trigger] t[j] == seq![
                        'f',
                        'i',
                        'e',
                        'l',
                        'd',
                    ][j - s.len()]);
            }
        },
        LitV::Group(s) => {
            assert(forall|j: int| 0 <= j < t.len() ==> is_ident_char(#[trigger] t[j])) by {
                assert(forall|j: int|
                    0 <= j < s.len() ==> t[j] == s[j] && crate::num::is_dec_digit(
                        #[trigger] s[j],
                    ));
                assert(forall|j: int|
                    s.len() <= j < t.len() ==> #[trigger] t[j] == seq![
                        'g',
                        'r',
                        'o',
                        'u',
                        'p',
                    ][j - s.len()]);
            }
        },
        LitV::Scalar(v) => {
            crate::num::lemma_dec_digits_val(v as nat);
            let s = dec_digits(v as nat);
            assert(forall|j: int| 0 <= j < t.len() ==> is_ident_char(#[trigger] t[j])) by {
                assert(forall|j: int|
                    0 <= j < s.len() ==> t[j] == s[j] && crate::num::is_dec_digit(
                        #[trigger] s[j],
                    ));
                assert(forall|j: int|
                    s.len() <= j < t.len() ==> #[trigger] t[j] == seq![
                        's',
                        'c',
                        'a',
                        'l',
                        'a',
                        'r',
                    ][j - s.len()]);
            }
        },
        LitV::U64(v) => {
            crate::num::lemma_dec_digits_val(v as nat);
            let s = dec_digits(v as nat);
            assert(forall|j: int| 0 <= j < t.len() ==> is_ident_char(#[trigger] t[j])) by {
                assert(forall|j: int|
                    0 <= j < s.len() ==> t[j] == s[j] && crate::num::is_dec_digit(
                        #[trigger] s[j],
                    ));
                assert(forall|j: int|
                    s.len() <= j < t.len() ==> #[trigger] t[j] == seq!['u', '6', '4'][j
                        - s.len()]);
            }
        },
    }
}

/// The first character of a plaintext's text is never whitespace.
pub proof fn lemma_pt_text_first(p: PtV, d: nat)
    requires
        ptv_wf(p),
    ensures
        pt_text(p, d).len() >= 1,
        !is_ws(pt_text(p, d)[0]),
        p is Struct ==> pt_text(p, d)[0] == '{',
        p is Literal ==> is_ident_char(pt_text(p, d)[0]),
{
    match p {
        PtV::Literal(l) => {
            lemma_lit_text_header(l);
        },
        PtV::Struct(_) => {
        },
    }
}

/// Skips spaces and newlines, to exactly the end of the whitespace run.
fn t_skip_ws(cs: &Vec<char>, pos: usize) -> (r: usize)
    requires
        pos <= cs@.len(),
    ensures
        pos <= r <= cs@.len(),
        r == ws_end(cs@, pos as int),
{
    let n = cs.len();
    let mut i = pos;
    while i < n && (cs[i] == ' ' || cs[i] == '\n')
        invariant
            pos <= i <= n,
            n == cs@.len(),
            forall|j: int| pos <= j < i ==> is_ws(#[trigger] cs@[j]),
        decreases n - i,
    {
        i = i + 1;
    }
    proof {
        lemma_ws_end_unique(cs@, pos as int, i as int);
    }
    i
}

/// Reads the maximal run of word characters (lowercase letters, digits and
/// underscores).
fn t_read_word(cs: &Vec<char>, pos: usize) -> (r: (Vec<char>, usize))
    requires
        pos <= cs@.len(),
    ensures
        pos <= r.1 <= cs@.len(),
        r.1 == ident_run_end(cs@, pos as int),
        r.0@ == cs@.subrange(pos as int, r.1 as int),
{
    let n = cs.len();
    let mut i = pos;
    let mut out: Vec<char> = Vec::new();
    while i < n && ident_char(cs[i])
        invariant
            pos <= i <= n,
            n == cs@.len(),
            out@ =~= cs@.subrange(pos as int, i as int),
            forall|j: int| pos <= j < i ==> is_ident_char(#[trigger] cs@[j]),
        decreases n - i,
    {
        out.push(cs[i]);
        i = i + 1;
        proof {
            assert(out@ =~= cs@.subrange(pos as int, i as int));
        }
    }
    proof {
        lemma_ident_run_unique(cs@, pos as int, i as int);
    }
    (out, i)
}

/// Reads one literal token. If the ghost witness's canonical text sits at
/// `pos` maximally, the read succeeds with exactly that literal.
fn t_parse_lit(cs: &Vec<char>, pos: usize, Ghost(w): Ghost<Option<LitV>>) -> (r: Option<
    (Literal, usize),
>)
    requires
        pos <= cs@.len(),
    ensures
        r is Some ==> pos < (r->0).1 <= cs@.len(),
        (w matches Some(l) && lit_text_at(cs@, pos as int, l)) ==> (r matches Some(q) && q.0@
            == w->0 && q.1 == pos + lit_text(w->0).len()),
{
    let ghost live = w matches Some(l) && lit_text_at(cs@, pos as int, l);
    proof {
        if live {
            let l = w->0;
            lemma_lit_text_header(l);
            assert(forall|j: int|
                pos <= j < pos + lit_text(l).len() ==> is_ident_char(#[trigger] cs@[j])) by {
                assert(forall|j: int|
                    pos <= j < pos + lit_text(l).len() ==> cs@[j] == lit_text(l)[j - pos]);
            }
            lemma_ident_run_unique(cs@, pos as int, pos + lit_text(l).len() as int);
        }
    }
    let n = cs.len();
    if pos >= n {
        proof {
            if live {
                assert(false);
            }
        }
        return None;
    }
    let (word, end) = t_read_word(cs, pos);
    proof {
        if live {
            let l = w->0;
            assert(end == pos + lit_text(l).len());
            assert(word@ =~= lit_text(l));
        }
    }
    if end == pos {
        proof {
            if live {
                assert(false);
            }
        }
        return None;
    }
    let wn = word.len();
    // A boolean literal.
    if wn == 4 && word[0] == 't' && word[1] == 'r' && word[2] == 'u' && word[3] == 'e' {
        proof {
            if live {
                let l = w->0;
                assert(word@ =~= seq!['t', 'r', 'u', 'e']);
                if is_num_lit(l) {
                    assert(word@[0] == num_token(l)[0]);
                    assert(false);
                }
                assert(l == LitV::Boolean(true));
            }
        }
        return Some((Literal::Boolean(true), end));
    }
    if wn == 5 && word[0] == 'f' && word[1] == 'a' && word[2] == 'l' && word[3] == 's' && word[4]
        == 'e' {
        proof {
            if live {
                let l = w->0;
                assert(word@ =~= seq!['f', 'a', 'l', 's', 'e']);
                if is_num_lit(l) {
                    assert(word@[0] == num_token(l)[0]);
                    assert(false);
                }
                assert(l == LitV::Boolean(false));
            }
        }
        return Some((Literal::Boolean(false), end));
    }
    // A number with a type suffix.
    if char_to_digit(word[0]).is_some() {
        proof {
            if live {
                let l = w->0;
                assert(is_num_lit(l)) by {
                    if l is Address {
                        assert(word@[0] == 'a');
                    }
                    if l is Boolean {
                        assert(word@[0] == 't' || word@[0] == 'f');
                    }
                }
                assert(forall|j: int|
                    0 <= j < num_token(l).len() ==> #[trigger] word@[j] == num_token(l)[j]);
                assert(word@[num_token(l).len() as int] == num_suffix(l)[0]);
                lemma_digit_run_unique(word@, 0, num_token(l).len() as int);
            }
        }
        let mut k: usize = 0;
        while k < wn && char_to_digit(word[k]).is_some()
            invariant
                k <= wn,
                wn == word@.len(),
                forall|j: int| 0 <= j < k ==> crate::num::is_dec_digit(#[trigger] word@[j]),
            decreases wn - k,
        {
            k = k + 1;
        }
        proof {
            lemma_digit_run_unique(word@, 0, k as int);
            if live {
                let l = w->0;
                assert(k == num_token(l).len());
            }
        }
        let mut digits: Vec<char> = Vec::new();
        let mut t: usize = 0;
        while t < k
            invariant
                t <= k <= wn,
                wn == word@.len(),
                digits@ =~= word@.subrange(0, t as int),
            decreases k - t,
        {
            digits.push(word[t]);
            t = t + 1;
            proof {
                assert(digits@ =~= word@.subrange(0, t as int));
            }
        }
        proof {
            if live {
                let l = w->0;
                assert(digits@ =~= num_token(l));
            }
        }
        let sn = wn - k;
        if sn == 3 && word[k] == 'u' && word[k + 1] == '6' && word[k + 2] == '4' {
            proof {
                if live {
                    let l = w->0;
                    assert(l is U64) by {
                        assert(num_suffix(l)[0] == word@[k as int]);
                        assert(num_suffix(l).len() == 3);
                    }
                }
            }
            let ghost uw: Option<u64> = if live && w->0 is U64 {
                Some(w->0->U64_0)
            } else {
                None
            };
            match parse_u64_digits(&digits, Ghost(uw)) {
                Some(v) => {
                    return Some((Literal::U64(v), end));
                },
                None => {
                    proof {
                        if live {
                            assert(false);
                        }
                    }
                    return None;
                },
            }
        }
        if sn == 6 && word[k] == 's' && word[k + 1] == 'c' && word[k + 2] == 'a' && word[k + 3]
            == 'l' && word[k + 4] == 'a' && word[k + 5] == 'r' {
            proof {
                if live {
                    let l = w->0;
                    assert(l is Scalar) by {
                        assert(num_suffix(l)[0] == word@[k as int]);
                        assert(num_suffix(l).len() == 6);
                    }
                }
            }
            let ghost uw: Option<u64> = if live && w->0 is Scalar {
                Some(w->0->Scalar_0)
            } else {
                None
            };
            match parse_u64_digits(&digits, Ghost(uw)) {
                Some(v) => {
                    if v < SCALAR_MODULUS {
                        return Some((Literal::Scalar(v), end));
                    } else {
                        proof {
                            if live {
                                assert(false);
                            }
                        }
                        return None;
                    }
                },
                None => {
                    proof {
                        if live {
                            assert(false);
                        }
                    }
                    return None;
                },
            }
        }
        if sn == 5 && word[k] == 'g' && word[k + 1] == 'r' && word[k + 2] == 'o' && word[k + 3]
            == 'u' && word[k + 4] == 'p' {
            proof {
                if live {
                    let l = w->0;
                    assert(l is Group) by {
                        assert(num_suffix(l)[0] == word@[k as int]);
                    }
                }
            }
            return Some((Literal::Group(chars_to_string(&digits)), end));
        }
        if sn == 5 && word[k] == 'f' && word[k + 1] == 'i' && word[k + 2] == 'e' && word[k + 3]
            == 'l' && word[k + 4] == 'd' {
            proof {
                if live {
                    let l = w->0;
                    assert(l is Field) by {
                        assert(num_suffix(l)[0] == word@[k as int]);
                    }
                }
            }
            return Some((Literal::Field(chars_to_string(&digits)), end));
        }
        proof {
            if live {
                let l = w->0;
                assert(num_suffix(l)[0] == word@[k as int]);
                assert(num_suffix(l).len() == sn);
                assert(forall|j: int|
                    0 <= j < num_suffix(l).len() ==> #[trigger] word@[k + j] == num_suffix(
                        l,
                    )[j]);
                assert(false);
            }
        }
        return None;
    }
    // An address token.
    if wn == 63 {
        proof {
            if live {
                let l = w->0;
                assert(l is Address) by {
                    if is_num_lit(l) {
                        assert(word@[0] == num_token(l)[0]);
                    }
                    if l is Boolean {
                        assert(word@.len() == 4 || word@.len() == 5);
                    }
                }
            }
        }
        return Some((Literal::Address(chars_to_string(&word)), end));
    }
    proof {
        if live {
            let l = w->0;
            if is_num_lit(l) {
                assert(word@[0] == num_token(l)[0]);
                assert(crate::num::is_dec_digit(word@[0]));
            }
            if l is Boolean {
                assert(word@ == lit_text(l));
            }
            if l is Address {
                assert(word@.len() == 63);
            }
            assert(false);
        }
    }
    None
}

/// Evaluates a digit run as a 64-bit integer, rejecting overflow. The
/// canonical digits of any 64-bit integer evaluate back to it.
fn parse_u64_digits(digits: &Vec<char>, Ghost(w): Ghost<Option<u64>>) -> (r: Option<u64>)
    ensures
        (w matches Some(x) && digits@ == dec_digits(x as nat)) ==> r == Some(w->0),
{
    let ghost live = w matches Some(x) && digits@ == dec_digits(x as nat);
    proof {
        if live {
            crate::num::lemma_dec_digits_val(w->0 as nat);
            crate::num::lemma_dec_digits_len_u64(w->0);
        }
    }
    let n = digits.len();
    if n == 0 || n > 20 {
        proof {
            if live {
                assert(false);
            }
        }
        return None;
    }
    let mut acc: u128 = 0;
    let mut i: usize = 0;
    while i < n
        invariant
            i <= n <= 20,
            n == digits@.len(),
            acc < 0x1_0000_0000_0000_0000_0000u128,
            live == (w matches Some(x) && digits@ == dec_digits(x as nat)),
            live ==> acc as nat == crate::num::dec_val(digits@.subrange(0, i as int))
                && acc <= u64::MAX as u128,
        decreases n - i,
    {
        proof {
            if live {
                crate::num::lemma_dec_digits_val(w->0 as nat);
                assert(crate::num::is_dec_digit(digits@[i as int]));
            }
        }
        let d = match char_to_digit(digits[i]) {
            Some(d) => d,
            None => {
                proof {
                    if live {
                        assert(false);
                    }
                }
                return None;
            },
        };
        acc = acc * 10 + (d as u128);
        proof {
            if live {
                crate::num::lemma_dec_val_push(
                    digits@.subrange(0, i as int),
                    digits@[i as int],
                );
                assert(digits@.subrange(0, i as int).push(digits@[i as int]) =~= digits@.subrange(
                    0,
                    i as int + 1,
                ));
                crate::register::lemma_dec_val_prefix_le(digits@, i as int + 1);
                assert(digits@.subrange(0, digits@.len() as int) =~= digits@);
                crate::num::lemma_dec_digits_val(w->0 as nat);
            }
        }
        if acc > u64::MAX as u128 {
            proof {
                if live {
                    assert(false);
                }
            }
            return None;
        }
        i = i + 1;
    }
    proof {
        if live {
            assert(digits@.subrange(0, n as int) =~= digits@);
            crate::num::lemma_dec_digits_val(w->0 as nat);
        }
    }
    Some(acc as u64)
}

/// The position after the whitespace run and the witness plaintext's text.
pub open spec fn pt_end(s: Seq<char>, pos: int, p: PtV, d: nat) -> int {
    ws_end(s, pos) + pt_text(p, d).len()
}

/// A word character is never layout whitespace.
pub proof fn lemma_ident_char_not_ws(c: char)
    requires
        is_ident_char(c),
    ensures
        !is_ws(c),
{
}

/// The character layout of a struct plaintext's text: the brace header, the
/// members, and the newline-indent-brace footer.
pub proof fn lemma_struct_text_layout(pms: Seq<(Seq<char>, PtV)>, d: nat)
    ensures
        ({
            let t = pt_text(PtV::Struct(pms), d);
            let m = pt_members_text(pms, d + 1, 0);
            &&& t.len() == 2 + m.len() + 1 + 2 * d + 1
            &&& t[0] == '{'
            &&& t[1] == '\n'
            &&& (forall|i: int| 0 <= i < m.len() ==> t[2 + i] == #[trigger] m[i])
            &&& t[2 + m.len() as int] == '\n'
            &&& (forall|j: int| 0 <= j < 2 * d ==> #[trigger] t[2 + m.len() + 1 + j] == ' ')
            &&& t[t.len() - 1] == '}'
        }),
{
    let m = pt_members_text(pms, d + 1, 0);
    let y1 = seq!['{', '\n'];
    let y2 = y1.add(m);
    let y3 = y2.add(seq!['\n']);
    let y4 = y3.add(indent_text(d));
    let t = y4.add(seq!['}']);
    lemma_indent_text(d);
    assert(pt_text(PtV::Struct(pms), d) == t);
    assert(forall|i: int| 0 <= i < m.len() ==> y2[2 + i] == #[trigger] m[i]);
    assert(forall|i: int| 0 <= i < m.len() ==> t[2 + i] == #[trigger] m[i]);
    assert(t[2 + m.len() as int] == '\n');
    assert(forall|j: int|
        0 <= j < 2 * d ==> #[trigger] t[2 + m.len() + 1 + j] == indent_text(d)[j]);
}

/// The character layout of the member list's text from member `k` on: the
/// separator, the indentation, the name, the colon and space, the member's
/// own text, and the rest.
pub proof fn lemma_member_text_layout(pms: Seq<(Seq<char>, PtV)>, dd: nat, k: int)
    requires
        0 <= k < pms.len(),
    ensures
        ({
            let rem = pt_members_text(pms, dd, k);
            let rest = pt_members_text(pms, dd, k + 1);
            let name = pms[k].0;
            let ptx = pt_text(pms[k].1, dd);
            let sep: int = if k == 0 {
                0
            } else {
                2
            };
            &&& rem.len() == sep + 2 * dd + name.len() + 2 + ptx.len() + rest.len()
            &&& (k > 0 ==> rem[0] == ',' && rem[1] == '\n')
            &&& (forall|j: int| 0 <= j < 2 * dd ==> #[trigger] rem[sep + j] == ' ')
            &&& (forall|j: int|
                0 <= j < name.len() ==> #[trigger] rem[sep + 2 * dd + j] == name[j])
            &&& rem[sep + 2 * dd + name.len() as int] == ':'
            &&& rem[sep + 2 * dd + name.len() + 1] == ' '
            &&& (forall|j: int|
                0 <= j < ptx.len() ==> #[trigger] rem[sep + 2 * dd + name.len() + 2 + j]
                    == ptx[j])
            &&& (forall|j: int|
                0 <= j < rest.len() ==> #[trigger] rem[sep + 2 * dd + name.len() + 2
                    + ptx.len() + j] == rest[j])
        }),
{
    let rem = pt_members_text(pms, dd, k);
    let rest = pt_members_text(pms, dd, k + 1);
    let name = pms[k].0;
    let ptx = pt_text(pms[k].1, dd);
    let sep: int = if k == 0 {
        0
    } else {
        2
    };
    let s0 = if k == 0 {
        Seq::<char>::empty()
    } else {
        seq![',', '\n']
    };
    let y1 = s0.add(indent_text(dd));
    let y2 = y1.add(name);
    let y3 = y2.add(seq![':', ' ']);
    let y4 = y3.add(ptx);
    lemma_indent_text(dd);
    assert(rem == y4.add(rest));
    assert(forall|j: int| 0 <= j < 2 * dd ==> #[trigger] y1[sep + j] == indent_text(dd)[j]);
    assert(forall|j: int| 0 <= j < 2 * dd ==> #[trigger] rem[sep + j] == y1[sep + j]) by {
        assert(forall|j: int|
            0 <= j < 2 * dd ==> #[trigger] rem[sep + j] == y4[sep + j] && y4[sep + j] == y3[sep
                + j] && y3[sep + j] == y2[sep + j] && y2[sep + j] == y1[sep + j]);
    }
    assert(forall|j: int|
        0 <= j < name.len() ==> #[trigger] rem[sep + 2 * dd + j] == name[j]) by {
        assert(forall|j: int|
            0 <= j < name.len() ==> #[trigger] rem[sep + 2 * dd + j] == y4[sep + 2 * dd + j]
                && y4[sep + 2 * dd + j] == y3[sep + 2 * dd + j] && y3[sep + 2 * dd + j] == y2[sep
                + 2 * dd + j] && y2[sep + 2 * dd + j] == name[j]);
    }
    assert(rem[sep + 2 * dd + name.len() as int] == ':') by {
        assert(y3[sep + 2 * dd + name.len() as int] == ':');
    }
    assert(rem[sep + 2 * dd + name.len() + 1] == ' ') by {
        assert(y3[sep + 2 * dd + name.len() + 1] == ' ');
    }
    assert(forall|j: int|
        0 <= j < ptx.len() ==> #[trigger] rem[sep + 2 * dd + name.len() + 2 + j] == ptx[j]) by {
        assert(forall|j: int|
            0 <= j < ptx.len() ==> #[trigger] rem[sep + 2 * dd + name.len() + 2 + j] == y4[sep
                + 2 * dd + name.len() + 2 + j] && y4[sep + 2 * dd + name.len() + 2 + j]
                == ptx[j]);
    }
    assert(forall|j: int|
        0 <= j < rest.len() ==> #[trigger] rem[sep + 2 * dd + name.len() + 2 + ptx.len() + j]
            == rest[j]);
}

/// Reads one plaintext: a literal, or a braced struct. If the ghost
/// witness's canonical text at its depth follows the whitespace at `pos`,
/// maximally, and the fuel covers it, the read succeeds with exactly that
/// plaintext.
#[verifier::rlimit(60)]
fn t_parse_pt(cs: &Vec<char>, pos: usize, fuel: usize, Ghost(w): Ghost<Option<(PtV, nat)>>) -> (r:
    Option<(Plaintext, usize)>)
    requires
        pos <= cs@.len(),
    ensures
        r is Some ==> pos < (r->0).1 <= cs@.len(),
        (w matches Some(pd) && pt_text_at(cs@, ws_end(cs@, pos as int), pd.0, pd.1) && fuel
            >= pt_text(pd.0, pd.1).len()) ==> (r matches Some(q) && q.0@ == (w->0).0 && q.1
            == pt_end(cs@, pos as int, (w->0).0, (w->0).1)),
    decreases fuel,
{
    let ghost live = w matches Some(pd) && pt_text_at(cs@, ws_end(cs@, pos as int), pd.0, pd.1)
        && fuel >= pt_text(pd.0, pd.1).len();
    let ghost p = (w->0).0;
    let ghost d = (w->0).1;
    proof {
        lemma_ws_end(cs@, pos as int);
        if live {
            lemma_pt_text_first(p, d);
        }
    }
    let n = cs.len();
    if fuel == 0 {
        proof {
            if live {
                assert(false);
            }
        }
        return None;
    }
    let start = t_skip_ws(cs, pos);
    if start >= n {
        proof {
            if live {
                assert(false);
            }
        }
        return None;
    }
    if cs[start] != '{' {
        proof {
            if live {
                assert(cs@[start as int] == pt_text(p, d)[0]);
                assert(p is Literal);
                assert(lit_text_at(cs@, start as int, p->Literal_0));
            }
        }
        let ghost lw: Option<LitV> = if live && p is Literal {
            Some(p->Literal_0)
        } else {
            None
        };
        return match t_parse_lit(cs, start, Ghost(lw)) {
            Some((l, end)) => Some((Plaintext::Literal(l), end)),
            None => {
                proof {
                    if live {
                        assert(false);
                    }
                }
                None
            },
        };
    }
    proof {
        if live {
            assert(cs@[start as int] == pt_text(p, d)[0]);
            if p is Literal {
                lemma_lit_text_header(p->Literal_0);
                assert(is_ident_char(pt_text(p, d)[0]));
                assert(false);
            }
        }
    }
    let ghost pms = p->Struct_0;
    let ghost dd = d + 1;
    let ghost text = pt_text(p, d);
    let ghost pos0 = start as int;
    let ghost mtot = pt_members_text(pms, dd, 0);
    let ghost mstart = pos0 + 2;
    let ghost mend = mstart + mtot.len() as int;
    proof {
        if live {
            lemma_struct_text_layout(pms, d);
            assert(forall|j: int|
                0 <= j < text.len() ==> #[trigger] cs@[pos0 + j] == text[j]) by {
                assert(forall|j: int|
                    0 <= j < text.len() ==> cs@.subrange(pos0, pos0 + text.len() as int)[j]
                        == text[j]);
            }
            assert(cs@.subrange(mstart, mend) =~= mtot) by {
                assert(forall|i: int|
                    0 <= i < mtot.len() ==> #[trigger] cs@.subrange(mstart, mend)[i] == cs@[mstart
                        + i] && cs@[mstart + i] == text[2 + i]);
            }
            assert(mtot.subrange(0, mtot.len() as int) =~= mtot);
            assert(1 <= pms.len());
        }
    }
    let mut cur = start + 1;
    let mut ms: Vec<(Identifier, Plaintext)> = Vec::new();
    let ghost mut k: int = 0;
    let mut first = true;
    loop
        invariant
            pos < cur <= cs@.len(),
            n == cs@.len(),
            fuel >= 1,
            live == (w matches Some(pd) && pt_text_at(cs@, ws_end(cs@, pos as int), pd.0, pd.1)
                && fuel >= pt_text(pd.0, pd.1).len()),
            live ==> p == (w->0).0 && d == (w->0).1 && p is Struct && pms == p->Struct_0 && dd
                == d + 1 && text == pt_text(p, d) && pos0 == ws_end(cs@, pos as int) && mtot
                == pt_members_text(pms, dd, 0) && mstart == pos0 + 2 && mend == mstart
                + mtot.len(),
            live ==> pt_text_at(cs@, pos0, p, d) && text.len() == 2 + mtot.len() + 1 + 2 * d + 1
                && pos0 + text.len() <= n && fuel >= text.len() && crate::value::ptv_wf(p)
                && crate::value::ptv_members_wf(pms) && 1 <= pms.len() <= 255,
            live ==> (forall|j: int|
                0 <= j < text.len() ==> #[trigger] cs@[pos0 + j] == text[j]),
            live ==> 0 <= k < pms.len() && k == ms@.len() && pt_members_view(ms@)
                == pms.subrange(0, k) && (first <==> k == 0),
            live ==> cur as int == mend - (pt_members_text(pms, dd, k).len() - (if k == 0 {
                0int
            } else {
                2int
            })) - 1,
            live ==> cs@[cur as int] == '\n' && cur as int >= pos0 + 1,
            live ==> (forall|j: int|
                0 <= j < pt_members_text(pms, dd, k).len() - (if k == 0 {
                    0int
                } else {
                    2int
                }) ==> #[trigger] cs@[cur + 1 + j] == pt_members_text(pms, dd, k)[j + (if k == 0 {
                    0int
                } else {
                    2int
                })]),
        decreases n - cur,
    {
        let ghost lsep: int = if k == 0 {
            0
        } else {
            2
        };
        let ghost rem = pt_members_text(pms, dd, k);
        let ghost name_g = pms[k].0;
        let ghost mk = if live {
            pms[k].1
        } else {
            p
        };
        let ghost ptx = pt_text(mk, dd);
        let ghost nmst = cur + 1 + 2 * dd;
        proof {
            if live {
                lemma_ptv_members_wf_index(pms, k);
                lemma_member_text_layout(pms, dd, k);
                lemma_indent_text(dd);
                assert forall|j: int| cur <= j < nmst implies is_ws(#[trigger] cs@[j]) by {
                    if j > cur {
                        let jj = j - cur - 1;
                        assert(cs@[cur + 1 + jj] == rem[lsep + jj]);
                        assert(rem[lsep + jj] == ' ');
                    }
                }
                assert(cs@[cur + 1 + 2 * dd] == rem[lsep + 2 * dd]);
                assert(cs@[nmst] == rem[lsep + 2 * dd]);
                assert(rem[lsep + 2 * dd] == name_g[0]);
                assert(is_ident_char(name_g[0]));
                lemma_ident_char_not_ws(name_g[0]);
                lemma_ws_end_unique(cs@, cur as int, nmst);
                assert forall|j: int|
                    nmst <= j < nmst + name_g.len() implies is_ident_char(
                    #[trigger] cs@[j],
                ) by {
                    let jj = j - nmst;
                    assert(cs@[cur + 1 + (2 * dd + jj)] == rem[lsep + (2 * dd + jj)]);
                    assert(rem[lsep + 2 * dd + jj] == name_g[jj]);
                }
                assert(cs@[cur + 1 + (2 * dd + name_g.len() as int)] == rem[lsep + (2 * dd
                    + name_g.len() as int)]);
                assert(cs@[nmst + name_g.len() as int] == ':');
                assert(!is_ident_char(':'));
                lemma_ident_run_unique(cs@, nmst, nmst + name_g.len() as int);
            }
        }
        let p1 = t_skip_ws(cs, cur);
        let (word, we) = t_read_word(cs, p1);
        if we == p1 {
            proof {
                if live {
                    assert(false);
                }
            }
            return None;
        }
        proof {
            if live {
                assert forall|j: int| 0 <= j < name_g.len() implies #[trigger] word@[j]
                    == name_g[j] by {
                    assert(word@[j] == cs@[nmst + j]);
                    assert(cs@[cur + 1 + (2 * dd + j)] == rem[lsep + (2 * dd + j)]);
                    assert(rem[lsep + 2 * dd + j] == name_g[j]);
                }
                assert(word@ =~= name_g);
            }
        }
        let name = match Identifier::from_chars(&word) {
            Some(id) => id,
            None => {
                proof {
                    if live {
                        assert(false);
                    }
                }
                return None;
            },
        };
        let p2 = t_skip_ws(cs, we);
        proof {
            if live {
                assert(cs@[we as int] == ':');
                assert(!is_ws(':'));
                lemma_ws_end_unique(cs@, we as int, we as int);
            }
        }
        if p2 >= n || cs[p2] != ':' {
            proof {
                if live {
                    assert(false);
                }
            }
            return None;
        }
        proof {
            if live {
                lemma_pt_text_first(mk, dd);
                assert(cs@[cur + 1 + (2 * dd + name_g.len() + 1)] == rem[lsep + (2 * dd
                    + name_g.len() + 1)]);
                assert(cs@[p2 + 1] == ' ');
                assert forall|j: int| 0 <= j < ptx.len() implies #[trigger] cs@[p2 + 2 + j]
                    == ptx[j] by {
                    assert(cs@[cur + 1 + (2 * dd + name_g.len() + 2 + j)] == rem[lsep + (2 * dd
                        + name_g.len() + 2 + j)]);
                    assert(rem[lsep + 2 * dd + name_g.len() + 2 + j] == ptx[j]);
                }
                assert(cs@[p2 + 2 + 0] == ptx[0]);
                assert(cs@[p2 + 2] == ptx[0]);
                lemma_ws_end_unique(cs@, p2 + 1, p2 + 2);
                assert(cs@.subrange(p2 + 2, p2 + 2 + ptx.len() as int) =~= ptx) by {
                    assert(forall|j: int|
                        0 <= j < ptx.len() ==> #[trigger] cs@.subrange(
                            p2 + 2,
                            p2 + 2 + ptx.len() as int,
                        )[j] == cs@[p2 + 2 + j]);
                }
                let e = p2 + 2 + ptx.len() as int;
                let rest = pt_members_text(pms, dd, k + 1);
                assert(e + rest.len() == mend);
                if k + 1 < pms.len() {
                    lemma_member_text_layout(pms, dd, k + 1);
                    assert(cs@[cur + 1 + (2 * dd + name_g.len() + 2 + ptx.len() as int)]
                        == rem[lsep + (2 * dd + name_g.len() + 2 + ptx.len() as int)]);
                    assert(cs@[e] == rest[0]);
                    assert(rest[0] == ',');
                    assert(!is_ident_char(','));
                } else {
                    assert(rest.len() == 0);
                    assert(e == mend);
                    assert(cs@[pos0 + (2 + mtot.len() as int)] == text[2 + mtot.len() as int]);
                    assert(cs@[e] == '\n');
                    assert(!is_ident_char('\n'));
                }
                assert(pt_text_at(cs@, p2 + 2, mk, dd));
                assert(rem.len() == lsep + 2 * dd + name_g.len() + 2 + ptx.len()
                    + pt_members_text(pms, dd, k + 1).len());
                assert(cur as int == mend - (rem.len() - lsep) - 1);
                assert(mend == pos0 + 2 + mtot.len());
                assert(text.len() == 2 + mtot.len() + 1 + 2 * d + 1);
                assert(cur as int >= pos0 + 1);
                assert(fuel >= text.len());
                assert(fuel - 1 >= ptx.len());
                assert(ws_end(cs@, p2 + 1) == p2 + 2);
            }
        }
        let ghost sw: Option<(PtV, nat)> = if live {
            Some((mk, dd))
        } else {
            None
        };
        let inner = match t_parse_pt(cs, p2 + 1, fuel - 1, Ghost(sw)) {
            Some((pt, end)) => (pt, end),
            None => {
                proof {
                    if live {
                        assert(false);
                    }
                }
                return None;
            },
        };
        let ghost pre_ms = ms@;
        ms.push((name, inner.0));
        proof {
            if live {
                crate::value::lemma_pt_members_view_snoc(pre_ms, (name, inner.0));
                assert(name@ == pms[k].0 && pt_view(inner.0) == pms[k].1);
                assert(pms.subrange(0, k + 1) =~= pms.subrange(0, k).push(pms[k]));
                assert(pt_members_view(ms@) == pms.subrange(0, k + 1));
            }
        }
        let p3 = t_skip_ws(cs, inner.1);
        proof {
            if live {
                let e = p2 + 2 + ptx.len() as int;
                assert(inner.1 == e);
                if k + 1 < pms.len() {
                    assert(cs@[e] == ',');
                    assert(!is_ws(','));
                    lemma_ws_end_unique(cs@, e, e);
                } else {
                    lemma_indent_text(d);
                    assert forall|j: int| mend <= j < mend + 1 + 2 * d implies is_ws(
                        #[trigger] cs@[j],
                    ) by {
                        if j == mend {
                            assert(cs@[pos0 + (2 + mtot.len() as int)] == text[2
                                + mtot.len() as int]);
                        } else {
                            let jj = j - mend - 1;
                            assert(cs@[pos0 + (2 + mtot.len() + 1 + jj)] == text[2 + mtot.len()
                                + 1 + jj]);
                        }
                    }
                    assert(cs@[pos0 + (text.len() - 1)] == text[text.len() - 1]);
                    assert(cs@[mend + 1 + 2 * d] == '}');
                    assert(!is_ws('}'));
                    lemma_ws_end_unique(cs@, e, mend + 1 + 2 * d);
                }
            }
        }
        if p3 >= n {
            proof {
                if live {
                    assert(false);
                }
            }
            return None;
        }
        if cs[p3] == ',' {
            proof {
                if live {
                    assert(k + 1 < pms.len()) by {
                        if k + 1 == pms.len() {
                            assert(cs@[p3 as int] == '}');
                        }
                    }
                }
            }
            if p3 + 1 <= cur {
                proof {
                    if live {
                        assert(false);
                    }
                }
                return None;
            }
            let ghost oldcur = cur as int;
            cur = p3 + 1;
            proof {
                k = k + 1;
                if live {
                    let rem2 = pt_members_text(pms, dd, k);
                    lemma_member_text_layout(pms, dd, k);
                    assert(cur as int == mend - (rem2.len() - 2) - 1);
                    assert(cur as int == oldcur + 1 + (2 * dd + name_g.len() + 2 + ptx.len())
                        + 1);
                    assert(cs@[oldcur + 1 + (2 * dd + name_g.len() + 2 + ptx.len() + 1)]
                        == rem[lsep + (2 * dd + name_g.len() + 2 + ptx.len() + 1)]);
                    assert(rem[lsep + 2 * dd + name_g.len() + 2 + ptx.len() + 1] == rem2[1]);
                    assert(cs@[cur as int] == rem2[1]);
                    assert forall|j: int|
                        0 <= j < rem2.len() - 2 implies #[trigger] cs@[cur + 1 + j] == rem2[j
                        + 2] by {
                        assert(cs@[oldcur + 1 + (2 * dd + name_g.len() + 2 + ptx.len() + 2 + j)]
                            == rem[lsep + (2 * dd + name_g.len() + 2 + ptx.len() + 2 + j)]);
                        assert(rem[lsep + 2 * dd + name_g.len() + 2 + ptx.len() + 2 + j]
                            == rem2[2 + j]);
                    }
                }
            }
            first = false;
        } else if cs[p3] == '}' {
            proof {
                if live {
                    assert(k + 1 == pms.len()) by {
                        if k + 1 < pms.len() {
                            assert(cs@[p3 as int] == ',');
                        }
                    }
                    assert(pms.subrange(0, pms.len() as int) =~= pms);
                    assert(pt_members_view(ms@) == pms);
                    assert(pt_view(Plaintext::Struct(ms)) == p);
                    assert(p3 + 1 == pos0 + text.len());
                }
            }
            return Some((Plaintext::Struct(ms), p3 + 1));
        } else {
            proof {
                if live {
                    if k + 1 < pms.len() {
                        assert(cs@[p3 as int] == ',');
                    } else {
                        assert(cs@[p3 as int] == '}');
                    }
                    assert(false);
                }
            }
            return None;
        }
    }
}

/// The canonical suffix of the witness visibility sits at `pos`, maximally.
pub open spec fn vis_text_at(s: Seq<char>, pos: int, m: Mode) -> bool {
    &&& 0 <= pos
    &&& pos + vis_text(m).len() <= s.len()
    &&& s.subrange(pos, pos + vis_text(m).len() as int) == vis_text(m)
    &&& token_stop(s, pos + vis_text(m).len() as int)
}

/// Reads a visibility suffix: only at a dot, and exactly the witness's
/// suffix when its text sits at `pos` maximally.
fn t_parse_vis(cs: &Vec<char>, pos: usize, Ghost(w): Ghost<Option<Mode>>) -> (r: Option<
    (Mode, usize),
>)
    requires
        pos <= cs@.len(),
    ensures
        r is Some ==> pos < (r->0).1 <= cs@.len(),
        r is Some ==> pos < cs@.len() && cs@[pos as int] == '.',
        (w matches Some(m) && vis_text_at(cs@, pos as int, m)) ==> (r matches Some(q) && q.0
            == w->0 && q.1 == pos + vis_text(w->0).len()),
{
    let ghost live = w matches Some(m) && vis_text_at(cs@, pos as int, m);
    proof {
        if live {
            let m = w->0;
            assert(forall|j: int|
                0 <= j < vis_text(m).len() ==> #[trigger] cs@[pos + j] == vis_text(m)[j]) by {
                assert(forall|j: int|
                    0 <= j < vis_text(m).len() ==> cs@.subrange(
                        pos as int,
                        pos + vis_text(m).len() as int,
                    )[j] == vis_text(m)[j]);
            }
            assert(cs@[pos as int] == '.');
            assert(forall|j: int|
                pos + 1 <= j < pos + vis_text(m).len() ==> is_ident_char(
                    #[trigger] cs@[j],
                )) by {
                assert(forall|j: int|
                    pos + 1 <= j < pos + vis_text(m).len() ==> cs@[j] == vis_text(m)[j - pos]);
            }
            lemma_ident_run_unique(cs@, pos + 1, pos + vis_text(m).len() as int);
        }
    }
    let n = cs.len();
    if pos >= n || cs[pos] != '.' {
        proof {
            if live {
                assert(false);
            }
        }
        return None;
    }
    let (word, end) = t_read_word(cs, pos + 1);
    proof {
        if live {
            let m = w->0;
            assert(word@ =~= vis_text(m).subrange(1, vis_text(m).len() as int)) by {
                assert(forall|j: int|
                    0 <= j < vis_text(m).len() - 1 ==> #[trigger] word@[j] == cs@[pos + 1 + j]
                        && cs@[pos + 1 + j] == vis_text(m)[1 + j]);
            }
        }
    }
    let wn = word.len();

    if wn == 8 && word[0] == 'c' && word[1] == 'o' && word[2] == 'n' && word[3] == 's' && word[4]
        == 't' && word[5] == 'a' && word[6] == 'n' && word[7] == 't' {
        proof {
            if live {
                assert(w->0 is Constant) by {
                    assert(word@[0] == vis_text(w->0)[1]);
                }
            }
        }
        return Some((Mode::Constant, end));
    }
    if wn == 6 && word[0] == 'p' && word[1] == 'u' && word[2] == 'b' && word[3] == 'l' && word[4]
        == 'i' && word[5] == 'c' {
        proof {
            if live {
                assert(w->0 is Public) by {
                    assert(word@[0] == vis_text(w->0)[1]);
                    assert(word@.len() == vis_text(w->0).len() - 1);
                }
            }
        }
        return Some((Mode::Public, end));
    }
    if wn == 7 && word[0] == 'p' && word[1] == 'r' && word[2] == 'i' && word[3] == 'v' && word[4]
        == 'a' && word[5] == 't' && word[6] == 'e' {
        proof {
            if live {
                assert(w->0 is Private) by {
                    assert(word@[0] == vis_text(w->0)[1]);
                    assert(word@.len() == vis_text(w->0).len() - 1);
                }
            }
        }
        return Some((Mode::Private, end));
    }
    proof {
        if live {
            let m = w->0;
            assert(word@.len() == vis_text(m).len() - 1);
            assert(word@[0] == vis_text(m)[1]);
            assert(forall|j: int|
                0 <= j < word@.len() ==> #[trigger] word@[j] == vis_text(m)[1 + j]);
            assert(false);
        }
    }
    None
}

/// The character layout of a record value's text.
pub proof fn lemma_record_text_layout(ves: Seq<(Seq<char>, EntryV)>)
    ensures
        ({
            let t = value_text(ValV::Record(ves));
            let m = rec_entries_text(ves, 1, 0);
            &&& t.len() == 2 + m.len() + 2
            &&& t[0] == '{'
            &&& t[1] == '\n'
            &&& (forall|i: int| 0 <= i < m.len() ==> t[2 + i] == #[trigger] m[i])
            &&& t[2 + m.len() as int] == '\n'
            &&& t[t.len() - 1] == '}'
        }),
{
    let m = rec_entries_text(ves, 1, 0);
    let t = seq!['{', '\n'].add(m).add(seq!['\n', '}']);
    assert(value_text(ValV::Record(ves)) == t);
    assert(forall|i: int| 0 <= i < m.len() ==> seq!['{', '\n'].add(m)[2 + i] == #[trigger] m[i]);
    assert(forall|i: int| 0 <= i < m.len() ==> t[2 + i] == #[trigger] m[i]);
}

/// The character layout of the entry list's text from entry `k` on.
pub proof fn lemma_entry_text_layout(ves: Seq<(Seq<char>, EntryV)>, k: int)
    requires
        0 <= k < ves.len(),
    ensures
        ({
            let rem = rec_entries_text(ves, 1, k);
            let rest = rec_entries_text(ves, 1, k + 1);
            let name = ves[k].0;
            let ptx = pt_text(ves[k].1.pt, 1);
            let vtx = vis_text(ves[k].1.vis);
            let sep: int = if k == 0 {
                0
            } else {
                2
            };
            &&& rem.len() == sep + 2 + name.len() + 2 + ptx.len() + vtx.len() + rest.len()
            &&& (k > 0 ==> rem[0] == ',' && rem[1] == '\n')
            &&& rem[sep] == ' ' && rem[sep + 1] == ' '
            &&& (forall|j: int| 0 <= j < name.len() ==> #[trigger] rem[sep + 2 + j] == name[j])
            &&& rem[sep + 2 + name.len() as int] == ':'
            &&& rem[sep + 2 + name.len() + 1] == ' '
            &&& (forall|j: int|
                0 <= j < ptx.len() ==> #[trigger] rem[sep + 2 + name.len() + 2 + j] == ptx[j])
            &&& (forall|j: int|
                0 <= j < vtx.len() ==> #[trigger] rem[sep + 2 + name.len() + 2 + ptx.len() + j]
                    == vtx[j])
            &&& (forall|j: int|
                0 <= j < rest.len() ==> #[trigger] rem[sep + 2 + name.len() + 2 + ptx.len()
                    + vtx.len() + j] == rest[j])
        }),
{
    let rem = rec_entries_text(ves, 1, k);
    let rest = rec_entries_text(ves, 1, k + 1);
    let name = ves[k].0;
    let ptx = pt_text(ves[k].1.pt, 1);
    let vtx = vis_text(ves[k].1.vis);
    let sep: int = if k == 0 {
        0
    } else {
        2
    };
    let s0 = if k == 0 {
        Seq::<char>::empty()
    } else {
        seq![',', '\n']
    };
    let y1 = s0.add(indent_text(1));
    let y2 = y1.add(name);
    let y3 = y2.add(seq![':', ' ']);
    let y4 = y3.add(ptx);
    let y5 = y4.add(vtx);
    lemma_indent_text(1);
    assert(rem == y5.add(rest));
    assert(indent_text(1)[0] == ' ' && indent_text(1)[1] == ' ');
    assert(rem[sep] == ' ' && rem[sep + 1] == ' ') by {
        assert(y1[sep] == ' ' && y1[sep + 1] == ' ');
        assert(rem[sep] == y5[sep] && y5[sep] == y4[sep] && y4[sep] == y3[sep] && y3[sep]
            == y2[sep] && y2[sep] == y1[sep]);
        assert(rem[sep + 1] == y5[sep + 1] && y5[sep + 1] == y4[sep + 1] && y4[sep + 1] == y3[sep
            + 1] && y3[sep + 1] == y2[sep + 1] && y2[sep + 1] == y1[sep + 1]);
    }
    assert(forall|j: int|
        0 <= j < name.len() ==> #[trigger] rem[sep + 2 + j] == name[j]) by {
        assert(forall|j: int|
            0 <= j < name.len() ==> #[trigger] rem[sep + 2 + j] == y5[sep + 2 + j] && y5[sep + 2
                + j] == y4[sep + 2 + j] && y4[sep + 2 + j] == y3[sep + 2 + j] && y3[sep + 2 + j]
                == y2[sep + 2 + j] && y2[sep + 2 + j] == name[j]);
    }
    assert(rem[sep + 2 + name.len() as int] == ':') by {
        assert(y3[sep + 2 + name.len() as int] == ':');
    }
    assert(rem[sep + 2 + name.len() + 1] == ' ') by {
        assert(y3[sep + 2 + name.len() + 1] == ' ');
    }
    assert(forall|j: int|
        0 <= j < ptx.len() ==> #[trigger] rem[sep + 2 + name.len() + 2 + j] == ptx[j]) by {
        assert(forall|j: int|
            0 <= j < ptx.len() ==> #[trigger] rem[sep + 2 + name.len() + 2 + j] == y5[sep + 2
                + name.len() + 2 + j] && y5[sep + 2 + name.len() + 2 + j] == y4[sep + 2
                + name.len() + 2 + j] && y4[sep + 2 + name.len() + 2 + j] == ptx[j]);
    }
    assert(forall|j: int|
        0 <= j < vtx.len() ==> #[trigger] rem[sep + 2 + name.len() + 2 + ptx.len() + j]
            == vtx[j]) by {
        assert(forall|j: int|
            0 <= j < vtx.len() ==> #[trigger] rem[sep + 2 + name.len() + 2 + ptx.len() + j]
                == y5[sep + 2 + name.len() + 2 + ptx.len() + j] && y5[sep + 2 + name.len() + 2
                + ptx.len() + j] == vtx[j]);
    }
    assert(forall|j: int|
        0 <= j < rest.len() ==> #[trigger] rem[sep + 2 + name.len() + 2 + ptx.len() + vtx.len()
            + j] == rest[j]);
}

/// All position facts one record-entry iteration needs: where the name, the
/// colon, the member plaintext, the visibility suffix and the following
/// separator sit, relative to the cursor.
#[verifier::rlimit(100)]
pub proof fn lemma_rec_entry_positions(
    s: Seq<char>,
    ves: Seq<(Seq<char>, EntryV)>,
    k: int,
    cur: int,
    mend: int,
)
    requires
        crate::value::valv_entries_wf(ves),
        0 <= k < ves.len(),
        0 <= cur,
        mend <= s.len(),
        cur == mend - (rec_entries_text(ves, 1, k).len() - (if k == 0 {
            0int
        } else {
            2int
        })) - 1,
        s[cur] == '\n',
        forall|j: int|
            0 <= j < rec_entries_text(ves, 1, k).len() - (if k == 0 {
                0int
            } else {
                2int
            }) ==> #[trigger] s[cur + 1 + j] == rec_entries_text(ves, 1, k)[j + (if k == 0 {
                0int
            } else {
                2int
            })],
        k + 1 == ves.len() ==> (mend == s.len() || !is_ident_char(s[mend])),
    ensures
        ({
            let name = ves[k].0;
            let ptx = pt_text(ves[k].1.pt, 1);
            let vtx = vis_text(ves[k].1.vis);
            let nmst = cur + 3;
            let we = nmst + name.len() as int;
            let pts = we + 2;
            let e = pts + ptx.len() as int;
            let e2 = e + vtx.len() as int;
            &&& ws_end(s, cur) == nmst
            &&& ident_run_end(s, nmst) == we
            &&& s.subrange(nmst, we) == name
            &&& crate::ident::is_valid_ident(name)
            &&& we < s.len() && s[we] == ':' && ws_end(s, we) == we
            &&& s[we + 1] == ' '
            &&& ws_end(s, we + 1) == pts
            &&& pt_text_at(s, pts, ves[k].1.pt, 1)
            &&& vis_text_at(s, e, ves[k].1.vis)
            &&& (k + 1 < ves.len() ==> e2 < s.len() && s[e2] == ',' && ws_end(s, e2) == e2
                && s[e2 + 1] == '\n' && e2 + 1 == mend - (rec_entries_text(
                ves,
                1,
                k + 1,
            ).len() - 2) - 1 && (forall|j: int|
                0 <= j < rec_entries_text(ves, 1, k + 1).len() - 2 ==> #[trigger] s[e2 + 2 + j]
                    == rec_entries_text(ves, 1, k + 1)[j + 2]))
            &&& (k + 1 == ves.len() ==> e2 == mend)
        }),
{
    let lsep: int = if k == 0 {
        0
    } else {
        2
    };
    let rem = rec_entries_text(ves, 1, k);
    let name = ves[k].0;
    let ptx = pt_text(ves[k].1.pt, 1);
    let vtx = vis_text(ves[k].1.vis);
    let nmst = cur + 3;
    let we = nmst + name.len() as int;
    let pts = we + 2;
    let e = pts + ptx.len() as int;
    let e2 = e + vtx.len() as int;
    lemma_valv_entries_wf_index(ves, k);
    lemma_entry_text_layout(ves, k);
    lemma_pt_text_first(ves[k].1.pt, 1);
    assert forall|j: int| cur <= j < nmst implies is_ws(#[trigger] s[j]) by {
        if j > cur {
            let jj = j - cur - 1;
            assert(s[cur + 1 + jj] == rem[lsep + jj]);
        }
    }
    assert(s[cur + 1 + 2] == rem[lsep + 2]);
    assert(is_ident_char(name[0]));
    lemma_ident_char_not_ws(name[0]);
    lemma_ws_end_unique(s, cur, nmst);
    assert forall|j: int| nmst <= j < we implies is_ident_char(#[trigger] s[j]) by {
        let jj = j - nmst;
        assert(s[cur + 1 + (2 + jj)] == rem[lsep + (2 + jj)]);
        assert(rem[lsep + 2 + jj] == name[jj]);
    }
    assert(s[cur + 1 + (2 + name.len() as int)] == rem[lsep + (2 + name.len() as int)]);
    assert(s[we] == ':');
    assert(!is_ident_char(':'));
    lemma_ident_run_unique(s, nmst, we);
    assert(s.subrange(nmst, we) =~= name) by {
        assert(forall|j: int|
            0 <= j < name.len() ==> #[trigger] s.subrange(nmst, we)[j] == s[nmst + j] && s[cur + 1
                + (2 + j)] == rem[lsep + (2 + j)] && rem[lsep + 2 + j] == name[j]);
    }
    assert(!is_ws(':'));
    lemma_ws_end_unique(s, we, we);
    assert(s[cur + 1 + (2 + name.len() + 1)] == rem[lsep + (2 + name.len() + 1)]);
    assert(s[we + 1] == ' ');
    assert forall|j: int| 0 <= j < ptx.len() implies #[trigger] s[pts + j] == ptx[j] by {
        assert(s[cur + 1 + (2 + name.len() + 2 + j)] == rem[lsep + (2 + name.len() + 2 + j)]);
        assert(rem[lsep + 2 + name.len() + 2 + j] == ptx[j]);
    }
    assert(s[pts + 0] == ptx[0]);
    lemma_ws_end_unique(s, we + 1, pts);
    assert(s.subrange(pts, e) =~= ptx) by {
        assert(forall|j: int|
            0 <= j < ptx.len() ==> #[trigger] s.subrange(pts, e)[j] == s[pts + j]);
    }
    assert forall|j: int| 0 <= j < vtx.len() implies #[trigger] s[e + j] == vtx[j] by {
        assert(s[cur + 1 + (2 + name.len() + 2 + ptx.len() + j)] == rem[lsep + (2 + name.len()
            + 2 + ptx.len() + j)]);
        assert(rem[lsep + 2 + name.len() + 2 + ptx.len() + j] == vtx[j]);
    }
    assert(s[e + 0] == vtx[0]);
    assert(vtx[0] == '.');
    assert(!is_ident_char('.'));
    assert(s.subrange(e, e2) =~= vtx) by {
        assert(forall|j: int| 0 <= j < vtx.len() ==> #[trigger] s.subrange(e, e2)[j] == s[e + j]);
    }
    let rest = rec_entries_text(ves, 1, k + 1);
    assert(e2 + rest.len() == mend);
    if k + 1 < ves.len() {
        lemma_entry_text_layout(ves, k + 1);
        assert(s[cur + 1 + (2 + name.len() + 2 + ptx.len() + vtx.len() as int)] == rem[lsep + (2
            + name.len() + 2 + ptx.len() + vtx.len() as int)]);
        assert(s[e2] == rest[0]);
        assert(rest[0] == ',');
        assert(!is_ident_char(','));
        assert(!is_ws(','));
        lemma_ws_end_unique(s, e2, e2);
        assert(s[cur + 1 + (2 + name.len() + 2 + ptx.len() + vtx.len() + 1)] == rem[lsep + (2
            + name.len() + 2 + ptx.len() + vtx.len() + 1)]);
        assert(s[e2 + 1] == rest[1]);
        assert(rest[1] == '\n');
        assert forall|j: int| 0 <= j < rest.len() - 2 implies #[trigger] s[e2 + 2 + j] == rest[j
            + 2] by {
            assert(s[cur + 1 + (2 + name.len() + 2 + ptx.len() + vtx.len() + 2 + j)] == rem[lsep
                + (2 + name.len() + 2 + ptx.len() + vtx.len() + 2 + j)]);
            assert(rem[lsep + 2 + name.len() + 2 + ptx.len() + vtx.len() + 2 + j] == rest[2 + j]);
        }
    } else {
        assert(rest.len() == 0);
    }
    assert(token_stop(s, pts + ptx.len() as int)) by {
        assert(s[e] == '.');
    }
    assert(token_stop(s, e2)) by {
        if k + 1 < ves.len() {
        } else {
        }
    }
}

/// All position facts the record attempt meets on the first member of a
/// top-level plaintext struct, up to the missing visibility suffix.
#[verifier::rlimit(100)]
pub proof fn lemma_struct_first_positions(s: Seq<char>, pms: Seq<(Seq<char>, PtV)>)
    requires
        crate::value::ptv_wf(PtV::Struct(pms)),
        s == pt_text(PtV::Struct(pms), 0),
    ensures
        ({
            let name = pms[0].0;
            let ptx = pt_text(pms[0].1, 1);
            let we = 4 + name.len() as int;
            let pts = we + 2;
            let e = pts + ptx.len() as int;
            &&& s[0] == '{' && s[1] == '\n'
            &&& ws_end(s, 1) == 4
            &&& ident_run_end(s, 4) == we
            &&& s.subrange(4, we) == name
            &&& crate::ident::is_valid_ident(name)
            &&& we < s.len() && s[we] == ':' && ws_end(s, we) == we
            &&& s[we + 1] == ' '
            &&& ws_end(s, we + 1) == pts
            &&& pt_text_at(s, pts, pms[0].1, 1)
            &&& e < s.len() && (s[e] == ',' || s[e] == '\n')
        }),
{
    let name = pms[0].0;
    let ptx = pt_text(pms[0].1, 1);
    let we = 4 + name.len() as int;
    let pts = we + 2;
    let e = pts + ptx.len() as int;
    let m0 = pt_members_text(pms, 1, 0);
    lemma_struct_text_layout(pms, 0);
    lemma_ptv_members_wf_index(pms, 0);
    lemma_member_text_layout(pms, 1, 0);
    lemma_pt_text_first(pms[0].1, 1);
    lemma_indent_text(1);
    assert(forall|i: int| 0 <= i < m0.len() ==> s[2 + i] == #[trigger] m0[i]);
    assert(s[2int + 0] == m0[0int] && s[2int + 1] == m0[1int]);
    assert(m0[0int + 0] == ' ' && m0[0int + 1] == ' ');
    assert forall|j: int| 1 <= j < 4 implies is_ws(#[trigger] s[j]) by {
        if j >= 2 {
            assert(s[2int + (j - 2)] == m0[j - 2]);
            assert(m0[0int + (j - 2)] == ' ');
        }
    }
    assert(s[2int + 2] == m0[2int]);
    assert(m0[0int + 2 + 0] == name[0]);
    assert(is_ident_char(name[0]));
    lemma_ident_char_not_ws(name[0]);
    lemma_ws_end_unique(s, 1, 4);
    assert forall|j: int| 4 <= j < we implies is_ident_char(#[trigger] s[j]) by {
        let jj = j - 4;
        assert(s[2int + (2 + jj)] == m0[2int + jj]);
        assert(m0[0int + 2 + jj] == name[jj]);
    }
    assert(s[2int + (2 + name.len() as int)] == m0[2int + name.len() as int]);
    assert(m0[0int + 2 + name.len() as int] == ':');
    assert(s[we] == ':');
    assert(!is_ident_char(':'));
    lemma_ident_run_unique(s, 4, we);
    assert(s.subrange(4, we) =~= name) by {
        assert(forall|j: int|
            0 <= j < name.len() ==> #[trigger] s.subrange(4, we)[j] == s[4 + j] && s[2int + (2 + j)]
                == m0[2int + j] && m0[0int + 2 + j] == name[j]);
    }
    assert(!is_ws(':'));
    lemma_ws_end_unique(s, we, we);
    assert(s[2int + (2 + name.len() + 1)] == m0[2int + name.len() + 1]);
    assert(m0[0int + 2 + name.len() + 1] == ' ');
    assert(s[we + 1] == ' ');
    assert forall|j: int| 0 <= j < ptx.len() implies #[trigger] s[pts + j] == ptx[j] by {
        assert(s[2int + (2 + name.len() + 2 + j)] == m0[2int + name.len() + 2 + j]);
        assert(m0[0int + 2 + name.len() + 2 + j] == ptx[j]);
    }
    assert(s[pts + 0] == ptx[0]);
    lemma_ws_end_unique(s, we + 1, pts);
    assert(s.subrange(pts, e) =~= ptx) by {
        assert(forall|j: int|
            0 <= j < ptx.len() ==> #[trigger] s.subrange(pts, e)[j] == s[pts + j]);
    }
    let rest0 = pt_members_text(pms, 1, 1);
    if pms.len() > 1 {
        lemma_member_text_layout(pms, 1, 1);
        assert(s[2int + (2 + name.len() + 2 + ptx.len() as int)] == m0[2int + name.len() + 2
            + ptx.len() as int]);
        assert(m0[0int + 2 + name.len() + 2 + ptx.len() as int] == rest0[0]);
        assert(rest0[0] == ',');
        assert(s[e] == ',');
        assert(!is_ident_char(','));
    } else {
        assert(rest0.len() == 0);
        assert(e == 2int + m0.len());
        assert(s[2int + m0.len() as int] == '\n');
        assert(!is_ident_char('\n'));
    }
    assert(pt_text_at(s, pts, pms[0].1, 1)) by {
        assert(token_stop(s, e));
    }
}

/// Reads a whole value: a record with per-entry visibility suffixes, or a
/// plaintext. If the whole input is the ghost witness's canonical text, the
/// read succeeds with exactly that value.
#[verifier::rlimit(100)]
fn raw_parse_value(cs: &Vec<char>, Ghost(w): Ghost<Option<ValV>>) -> (r: Option<Value>)
    ensures
        (w matches Some(v) && valv_wf(v) && cs@ == value_text(v)) ==> (r matches Some(q) && q@
            == w->0),
{
    let ghost live = w matches Some(v) && valv_wf(v) && cs@ == value_text(v);
    let ghost v = w->0;
    let n = cs.len();
    proof {
        if live {
            match v {
                ValV::Plaintext(p) => {
                    lemma_pt_text_first(p, 0);
                    assert(cs@[0] == pt_text(p, 0)[0]);
                    lemma_ws_end_unique(cs@, 0, 0);
                },
                ValV::Record(ves) => {
                    lemma_record_text_layout(ves);
                    assert(forall|j: int|
                        0 <= j < cs@.len() ==> #[trigger] cs@[j] == value_text(v)[j]);
                    assert(cs@[0] == '{');
                    lemma_ws_end_unique(cs@, 0, 0);
                },
            }
        }
    }
    let start = t_skip_ws(cs, 0);
    if start >= n {
        proof {
            if live {
                assert(false);
            }
        }
        return None;
    }
    if cs[start] != '{' {
        // A bare literal plaintext.
        proof {
            if live {
                if v is Record {
                    assert(cs@[0] == '{');
                    assert(false);
                }
                let p = v->Plaintext_0;
                if p is Struct {
                    assert(cs@[0] == pt_text(p, 0)[0]);
                    assert(false);
                }
                assert(cs@.subrange(0, lit_text(p->Literal_0).len() as int) =~= lit_text(
                    p->Literal_0,
                ));
                assert(lit_text_at(cs@, 0, p->Literal_0));
            }
        }
        let ghost lw: Option<LitV> = if live && v is Plaintext && v->Plaintext_0 is Literal {
            Some(v->Plaintext_0->Literal_0)
        } else {
            None
        };
        let (l, end) = match t_parse_lit(cs, start, Ghost(lw)) {
            Some(le) => le,
            None => {
                proof {
                    if live {
                        assert(false);
                    }
                }
                return None;
            },
        };
        let fin = t_skip_ws(cs, end);
        if fin != n {
            proof {
                if live {
                    lemma_ws_end_unique(cs@, end as int, n as int);
                    assert(false);
                }
            }
            return None;
        }
        return Some(Value::Plaintext(Plaintext::Literal(l)));
    }
    // Try the record shape first: entries with visibility suffixes.
    let ghost rec_live = live && v is Record;
    let ghost struct_live = live && v is Plaintext;
    let ghost ves = if v is Record {
        v->Record_0
    } else {
        Seq::empty()
    };
    let ghost etot = rec_entries_text(ves, 1, 0);
    let ghost mend = 2 + etot.len() as int;
    let ghost vtext = value_text(v);
    proof {
        if live {
            assert(forall|j: int|
                0 <= j < cs@.len() ==> #[trigger] cs@[j] == vtext[j]);
        }
        if struct_live {
            assert(v->Plaintext_0 is Struct) by {
                if v->Plaintext_0 is Literal {
                    lemma_lit_text_header(v->Plaintext_0->Literal_0);
                    assert(is_ident_char(cs@[0]));
                }
            }
        }
        if rec_live {
            lemma_record_text_layout(ves);
            assert(1 <= ves.len() <= 255);
        }
    }
    let mut cur = start + 1;
    let mut es: Vec<(Identifier, crate::value::Entry)> = Vec::new();
    let ghost k: int = 0;
    loop
        invariant
            0 < cur <= cs@.len(),
            n == cs@.len(),
            live == (w matches Some(v2) && valv_wf(v2) && cs@ == value_text(v2)),
            v == w->0,
            rec_live == (live && v is Record),
            struct_live == (live && v is Plaintext),
            live ==> cs@[0] == '{' && start == 0 && (forall|j: int|
                0 <= j < cs@.len() ==> #[trigger] cs@[j] == value_text(v)[j]),
            struct_live ==> v->Plaintext_0 is Struct && cur == 1 && es@.len() == 0,
            rec_live ==> ves == v->Record_0 && etot == rec_entries_text(ves, 1, 0) && mend == 2
                + etot.len() && vtext == value_text(v) && valv_wf(v)
                && crate::value::valv_entries_wf(ves) && 1 <= ves.len() <= 255 && vtext.len()
                == 2 + etot.len() + 2 && n == vtext.len(),
            rec_live ==> 0 <= k < ves.len() && k == es@.len() && rec_entries_view(es@)
                == ves.subrange(0, k),
            rec_live ==> cur as int == mend - (rec_entries_text(ves, 1, k).len() - (if k == 0 {
                0int
            } else {
                2int
            })) - 1,
            rec_live ==> cs@[cur as int] == '\n' && cur as int >= 1,
            rec_live ==> (forall|j: int|
                0 <= j < rec_entries_text(ves, 1, k).len() - (if k == 0 {
                    0int
                } else {
                    2int
                }) ==> #[trigger] cs@[cur + 1 + j] == rec_entries_text(ves, 1, k)[j + (if k == 0 {
                    0int
                } else {
                    2int
                })]),
        ensures
            !rec_live,
        decreases n - cur,
    {
        let ghost name_g = if rec_live {
            ves[k].0
        } else if struct_live {
            v->Plaintext_0->Struct_0[0].0
        } else {
            Seq::empty()
        };
        let ghost mk = if rec_live {
            ves[k].1.pt
        } else if struct_live {
            v->Plaintext_0->Struct_0[0].1
        } else {
            arbitrary()
        };
        let ghost ptx = pt_text(mk, 1);
        proof {
            if rec_live {
                if k + 1 == ves.len() {
                    assert(cs@[mend] == vtext[2 + etot.len() as int]);
                    assert(cs@[mend] == '\n');
                    assert(!is_ident_char('\n'));
                }
                lemma_rec_entry_positions(cs@, ves, k, cur as int, mend);
            }
            if struct_live {
                assert(cs@ == pt_text(PtV::Struct(v->Plaintext_0->Struct_0), 0));
                lemma_struct_first_positions(cs@, v->Plaintext_0->Struct_0);
            }
        }
        let p1 = t_skip_ws(cs, cur);
        let (word, we) = t_read_word(cs, p1);
        if we == p1 {
            proof {
                if rec_live || struct_live {
                    assert(false);
                }
            }
            return None;
        }
        let name = match Identifier::from_chars(&word) {
            Some(id) => id,
            None => {
                proof {
                    if rec_live || struct_live {
                        assert(false);
                    }
                }
                return None;
            },
        };
        let p2 = t_skip_ws(cs, we);
        if p2 >= n || cs[p2] != ':' {
            proof {
                if rec_live || struct_live {
                    assert(false);
                }
            }
            return None;
        }
        let ghost sw: Option<(PtV, nat)> = if rec_live || struct_live {
            Some((mk, 1nat))
        } else {
            None
        };
        proof {
            if rec_live || struct_live {
                assert(ws_end(cs@, p2 + 1) == p2 + 2);
                assert(pt_text_at(cs@, p2 + 2, mk, 1));
                assert(n >= ptx.len());
            }
        }
        let inner = match t_parse_pt(cs, p2 + 1, n, Ghost(sw)) {
            Some((pt, end)) => (pt, end),
            None => {
                proof {
                    if rec_live || struct_live {
                        assert(false);
                    }
                }
                return None;
            },
        };
        let ghost vw: Option<Mode> = if rec_live {
            Some(ves[k].1.vis)
        } else {
            None
        };
        let vis = match t_parse_vis(cs, inner.1, Ghost(vw)) {
            Some(me) => me,
            None => {
                proof {
                    if rec_live {
                        assert(false);
                    }
                }
                break ;
            },
        };
        proof {
            if struct_live {
                let e = p2 + 2 + ptx.len() as int;
                assert(inner.1 == e);
                assert(cs@[e] == ',' || cs@[e] == '\n');
                assert(false);
            }
        }
        let ghost pre_es = es@;
        es.push((name, crate::value::Entry { vis: vis.0, plaintext: inner.0 }));
        proof {
            if rec_live {
                let ent = crate::value::Entry { vis: vis.0, plaintext: inner.0 };
                crate::value::lemma_rec_entries_view_snoc(pre_es, (name, ent));
                assert(name@ == ves[k].0 && ent@ == ves[k].1);
                assert(ves.subrange(0, k + 1) =~= ves.subrange(0, k).push(ves[k]));
                assert(rec_entries_view(es@) == ves.subrange(0, k + 1));
            }
        }
        let p3 = t_skip_ws(cs, vis.1);
        proof {
            if rec_live {
                let e2 = p2 + 2 + ptx.len() + vis_text(ves[k].1.vis).len() as int;
                assert(vis.1 == e2);
                if k + 1 == ves.len() {
                    assert(e2 == mend);
                    assert(cs@[mend] == '\n');
                    assert(cs@[mend + 1] == vtext[vtext.len() - 1]);
                    assert(cs@[mend + 1] == '}');
                    assert(!is_ws('}'));
                    lemma_ws_end_unique(cs@, e2, mend + 1);
                }
            }
        }
        if p3 >= n {
            proof {
                if rec_live {
                    assert(false);
                }
            }
            return None;
        }
        if cs[p3] == ',' {
            proof {
                if rec_live {
                    assert(k + 1 < ves.len()) by {
                        if k + 1 == ves.len() {
                            assert(cs@[p3 as int] == '}');
                        }
                    }
                }
            }
            if p3 + 1 <= cur {
                proof {
                    if rec_live {
                        assert(false);
                    }
                }
                return None;
            }
            cur = p3 + 1;
            proof {
                k = k + 1;
                if rec_live {
                    let e2 = p2 + 2 + ptx.len() + vis_text(ves[k - 1].1.vis).len() as int;
                    assert(p3 as int == e2);
                    assert(cur as int == e2 + 1);
                    assert(cs@[cur as int] == '\n');
                    assert forall|j: int|
                        0 <= j < rec_entries_text(ves, 1, k).len() - 2 implies #[trigger] cs@[cur
                        + 1 + j] == rec_entries_text(ves, 1, k)[j + 2] by {
                        assert(cs@[e2 + 2 + j] == rec_entries_text(ves, 1, k)[j + 2]);
                    }
                }
            }
        } else if cs[p3] == '}' {
            proof {
                if rec_live {
                    assert(k + 1 == ves.len()) by {
                        if k + 1 < ves.len() {
                            assert(cs@[p3 as int] == ',');
                        }
                    }
                    assert(ves.subrange(0, ves.len() as int) =~= ves);
                    assert(rec_entries_view(es@) == ves);
                    assert(Value::Record(es)@ == v);
                    assert(p3 + 1 == n);
                    lemma_ws_end_unique(cs@, p3 + 1, n as int);
                }
            }
            let fin = t_skip_ws(cs, p3 + 1);
            if fin != n {
                proof {
                    if rec_live {
                        assert(false);
                    }
                }
                return None;
            }
            return Some(Value::Record(es));
        } else {
            proof {
                if rec_live {
                    if k + 1 < ves.len() {
                        assert(cs@[p3 as int] == ',');
                    } else {
                        assert(cs@[p3 as int] == '}');
                    }
                    assert(false);
                }
            }
            return None;
        }
    }
    // Otherwise, a plaintext struct.
    proof {
        if struct_live {
            let p = v->Plaintext_0;
            assert(cs@.subrange(0, pt_text(p, 0).len() as int) =~= pt_text(p, 0));
            assert(pt_text_at(cs@, 0, p, 0));
            lemma_ws_end_unique(cs@, 0, 0);
        }
    }
    let ghost pw: Option<(PtV, nat)> = if struct_live {
        Some((v->Plaintext_0, 0nat))
    } else {
        None
    };
    match t_parse_pt(cs, start, n, Ghost(pw)) {
        Some((pt, end)) => {
            proof {
                if struct_live {
                    assert(end == n);
                    lemma_ws_end_unique(cs@, n as int, n as int);
                }
            }
            let fin = t_skip_ws(cs, end);
            if fin != n {
                proof {
                    if struct_live {
                        assert(false);
                    }
                }
                return None;
            }
            Some(Value::Plaintext(pt))
        },
        None => {
            proof {
                if struct_live {
                    assert(false);
                }
            }
            None
        },
    }
}

/// Parses a value from text, reporting malformed text as a `ParseError`:
/// it fails only where `value_from_text` does.
pub fn value_parse(s: &str) -> (r: Result<Value, crate::VmError>)
    ensures
        match r {
            Ok(v) => valv_wf(v@) && s@ == value_text(v@),
            Err(e) => e == crate::VmError::ParseError,
        },
        (exists|v: ValV| valv_wf(v) && s@ == value_text(v)) ==> r is Ok,
{
    match value_from_text(s) {
        Some(v) => Ok(v),
        None => Err(crate::VmError::ParseError),
    }
}

/// Parses a value from text, succeeding exactly on the canonical text of
/// well-formed values: a successful parse certifies that the input is the
/// returned value's canonical printed form, and the printed form of every
/// well-formed value parses successfully.
pub fn value_from_text(s: &str) -> (r: Option<Value>)
    ensures
        match r {
            Some(v) => valv_wf(v@) && s@ == value_text(v@),
            None => true,
        },
        (exists|v: ValV| valv_wf(v) && s@ == value_text(v)) ==> r is Some,
{
    let cs = str_to_chars(s);
    let ghost witness: Option<ValV> = if exists|v: ValV| valv_wf(v) && s@ == value_text(v) {
        Some(choose|v: ValV| valv_wf(v) && s@ == value_text(v))
    } else {
        None
    };
    let candidate = match raw_parse_value(&cs, Ghost(witness)) {
        Some(v) => v,
        None => {
            proof {
                if witness is Some {
                    assert(false);
                }
            }
            return None;
        },
    };
    if !value_wf_check(&candidate) {
        proof {
            if witness is Some {
                assert(false);
            }
        }
        return None;
    }
    let printed = value_to_text(&candidate);
    let pcs = str_to_chars(printed.as_str());
    if char_vecs_eq(&cs, &pcs) {
        Some(candidate)
    } else {
        proof {
            if witness is Some {
                assert(false);
            }
        }
        None
    }
}

/// Compares two character vectors.
fn char_vecs_eq(a: &Vec<char>, b: &Vec<char>) -> (r: bool)
    ensures
        r == (a@ == b@),
{
    let n = a.len();
    if n != b.len() {
        return false;
    }
    let mut i: usize = 0;
    while i < n
        invariant
            i <= n,
            n == a@.len() == b@.len(),
            forall|j: int| 0 <= j < i ==> a@[j] == b@[j],
        decreases n - i,
    {
        if a[i] != b[i] {
            return false;
        }
        i = i + 1;
    }
    proof {
        assert(a@ =~= b@);
    }
    true
}

} // verus!
