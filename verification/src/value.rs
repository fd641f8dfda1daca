//! The value model: a tagged union of plaintext and record values, with its
//! circuit-domain counterpart whose literals carry a visibility mode, the
//! projection of circuit values back to plain values, and structural
//! find-by-path resolution.

use vstd::prelude::*;
use crate::ident::{Identifier, is_valid_ident};
use crate::mode::Mode;
use crate::num::is_canon_dec;
use crate::scalar::SCALAR_MODULUS;
use crate::VmError;

verus! {

/// The length of an address literal's text.
pub const ADDRESS_LEN: usize = 63;

/// The most digits a field or group literal's decimal text may hold.
pub const MAX_DIGITS: usize = 78;

/// The most members a struct, and the most entries a record, may hold.
pub const MAX_MEMBERS: usize = 255;

/// A character of the data part of an address: a lowercase letter or digit.
pub open spec fn is_addr_char(c: char) -> bool {
    (97 <= c as u32 <= 122) || crate::num::is_dec_digit(c)
}

/// A lexically valid address literal: `aleo1` and 58 data characters.
pub open spec fn is_valid_address(s: Seq<char>) -> bool {
    &&& s.len() == ADDRESS_LEN
    &&& s[0] == 'a'
    &&& s[1] == 'l'
    &&& s[2] == 'e'
    &&& s[3] == 'o'
    &&& s[4] == '1'
    &&& (forall|i: int| 5 <= i < s.len() ==> is_addr_char(#[trigger] s[i]))
}

// ---------------------------------------------------------------------------
// The mathematical model of values.
// ---------------------------------------------------------------------------

/// The model of a literal. Address, field and group literals are carried as
/// their canonical text tokens: their arithmetic lives in the out-of-scope
/// curve library, while this core stores, addresses and serializes them.
pub enum LitV {
    Address(Seq<char>),
    Boolean(bool),
    Field(Seq<char>),
    Group(Seq<char>),
    Scalar(u64),
    U64(u64),
}

/// The model of a plaintext: a literal or an ordered struct of named members.
pub enum PtV {
    Literal(LitV),
    Struct(Seq<(Seq<char>, PtV)>),
}

/// The model of a record entry: a plaintext with its own visibility.
pub struct EntryV {
    pub vis: Mode,
    pub pt: PtV,
}

/// The model of a value: a plaintext or a record of named entries.
pub enum ValV {
    Plaintext(PtV),
    Record(Seq<(Seq<char>, EntryV)>),
}

pub open spec fn litv_wf(l: LitV) -> bool {
    match l {
        LitV::Address(s) => is_valid_address(s),
        LitV::Boolean(_) => true,
        LitV::Field(s) => is_canon_dec(s) && s.len() <= MAX_DIGITS,
        LitV::Group(s) => is_canon_dec(s) && s.len() <= MAX_DIGITS,
        LitV::Scalar(v) => v < SCALAR_MODULUS,
        LitV::U64(_) => true,
    }
}

pub open spec fn ptv_wf(p: PtV) -> bool
    decreases p,
{
    match p {
        PtV::Literal(l) => litv_wf(l),
        PtV::Struct(ms) => 1 <= ms.len() <= MAX_MEMBERS && ptv_members_wf(ms),
    }
}

pub open spec fn ptv_members_wf(ms: Seq<(Seq<char>, PtV)>) -> bool
    decreases ms,
{
    if ms.len() == 0 {
        true
    } else {
        is_valid_ident(ms[0].0) && ptv_wf(ms[0].1) && ptv_members_wf(
            ms.subrange(1, ms.len() as int),
        )
    }
}

pub open spec fn valv_wf(v: ValV) -> bool
    decreases v,
{
    match v {
        ValV::Plaintext(p) => ptv_wf(p),
        ValV::Record(es) => 1 <= es.len() <= MAX_MEMBERS && valv_entries_wf(es),
    }
}

pub open spec fn valv_entries_wf(es: Seq<(Seq<char>, EntryV)>) -> bool
    decreases es,
{
    if es.len() == 0 {
        true
    } else {
        is_valid_ident(es[0].0) && ptv_wf(es[0].1.pt) && valv_entries_wf(
            es.subrange(1, es.len() as int),
        )
    }
}

/// Well-formedness distributes over the members of a struct.
pub proof fn lemma_ptv_members_wf_index(ms: Seq<(Seq<char>, PtV)>, i: int)
    requires
        ptv_members_wf(ms),
        0 <= i < ms.len(),
    ensures
        is_valid_ident(ms[i].0),
        ptv_wf(ms[i].1),
    decreases ms,
{
    if i > 0 {
        lemma_ptv_members_wf_index(ms.subrange(1, ms.len() as int), i - 1);
    }
}

/// Well-formedness distributes over the entries of a record.
pub proof fn lemma_valv_entries_wf_index(es: Seq<(Seq<char>, EntryV)>, i: int)
    requires
        valv_entries_wf(es),
        0 <= i < es.len(),
    ensures
        is_valid_ident(es[i].0),
        ptv_wf(es[i].1.pt),
    decreases es,
{
    if i > 0 {
        lemma_valv_entries_wf_index(es.subrange(1, es.len() as int), i - 1);
    }
}

// ---------------------------------------------------------------------------
// Find-by-path over the model.
// ---------------------------------------------------------------------------

/// The index of the first member with the given name, or -1.
pub open spec fn member_index(ms: Seq<(Seq<char>, PtV)>, name: Seq<char>, i: int) -> int
    decreases ms.len() - i,
{
    if i < 0 || i >= ms.len() {
        -1
    } else if ms[i].0 == name {
        i
    } else {
        member_index(ms, name, i + 1)
    }
}

/// The index of the first entry with the given name, or -1.
pub open spec fn entry_index(es: Seq<(Seq<char>, EntryV)>, name: Seq<char>, i: int) -> int
    decreases es.len() - i,
{
    if i < 0 || i >= es.len() {
        -1
    } else if es[i].0 == name {
        i
    } else {
        entry_index(es, name, i + 1)
    }
}

pub proof fn lemma_member_index(ms: Seq<(Seq<char>, PtV)>, name: Seq<char>, i: int)
    requires
        0 <= i <= ms.len(),
    ensures
        member_index(ms, name, i) == -1 || (i <= member_index(ms, name, i) < ms.len()
            && ms[member_index(ms, name, i)].0 == name),
        member_index(ms, name, i) == -1 ==> forall|j: int|
            i <= j < ms.len() ==> (#[trigger] ms[j]).0 != name,
    decreases ms.len() - i,
{
    if i < ms.len() && ms[i].0 != name {
        lemma_member_index(ms, name, i + 1);
    }
}

pub proof fn lemma_entry_index(es: Seq<(Seq<char>, EntryV)>, name: Seq<char>, i: int)
    requires
        0 <= i <= es.len(),
    ensures
        entry_index(es, name, i) == -1 || (i <= entry_index(es, name, i) < es.len()
            && es[entry_index(es, name, i)].0 == name),
        entry_index(es, name, i) == -1 ==> forall|j: int|
            i <= j < es.len() ==> (#[trigger] es[j]).0 != name,
    decreases es.len() - i,
{
    if i < es.len() && es[i].0 != name {
        lemma_entry_index(es, name, i + 1);
    }
}

/// Descends through nested struct members along the path; an empty path
/// resolves to the plaintext itself; a missing segment, or a segment into a
/// literal, fails with PathNotFound.
pub open spec fn ptv_find(p: PtV, path: Seq<Seq<char>>) -> Result<PtV, VmError>
    decreases p,
{
    if path.len() == 0 {
        Ok(p)
    } else {
        match p {
            PtV::Literal(_) => Err(VmError::PathNotFound),
            PtV::Struct(ms) => {
                let i = member_index(ms, path[0], 0);
                if 0 <= i < ms.len() {
                    ptv_find(ms[i].1, path.subrange(1, path.len() as int))
                } else {
                    Err(VmError::PathNotFound)
                }
            },
        }
    }
}

/// Resolves a non-empty path against a value: for a plaintext, through nested
/// struct members; for a record, the first segment selects an entry whose
/// visibility is discarded, and deeper segments continue into its plaintext.
pub open spec fn valv_resolve(v: ValV, path: Seq<Seq<char>>) -> Result<PtV, VmError> {
    match v {
        ValV::Plaintext(p) => ptv_find(p, path),
        ValV::Record(es) => {
            if path.len() == 0 {
                Err(VmError::PathNotFound)
            } else {
                let i = entry_index(es, path[0], 0);
                if 0 <= i < es.len() {
                    ptv_find(es[i].1.pt, path.subrange(1, path.len() as int))
                } else {
                    Err(VmError::PathNotFound)
                }
            }
        },
    }
}

/// Resolution preserves well-formedness.
pub proof fn lemma_ptv_find_wf(p: PtV, path: Seq<Seq<char>>)
    requires
        ptv_wf(p),
        ptv_find(p, path) is Ok,
    ensures
        ptv_wf(ptv_find(p, path)->Ok_0),
    decreases p,
{
    if path.len() > 0 {
        match p {
            PtV::Literal(_) => {
            },
            PtV::Struct(ms) => {
                let i = member_index(ms, path[0], 0);
                lemma_member_index(ms, path[0], 0);
                lemma_ptv_members_wf_index(ms, i);
                lemma_ptv_find_wf(ms[i].1, path.subrange(1, path.len() as int));
            },
        }
    }
}

// ---------------------------------------------------------------------------
// The executable value types.
// ---------------------------------------------------------------------------

/// A literal: a typed scalar value.
#[derive(Clone, Debug, PartialEq, Eq)]
pub enum Literal {
    /// An address, as its text token.
    Address(String),
    Boolean(bool),
    /// A base-field element, as its canonical decimal token.
    Field(String),
    /// A group element, as its canonical decimal token.
    Group(String),
    /// A scalar-field element: a canonical residue.
    Scalar(u64),
    U64(u64),
}

impl View for Literal {
    type V = LitV;

    open spec fn view(&self) -> LitV {
        match self {
            Literal::Address(s) => LitV::Address(s@),
            Literal::Boolean(b) => LitV::Boolean(*b),
            Literal::Field(s) => LitV::Field(s@),
            Literal::Group(s) => LitV::Group(s@),
            Literal::Scalar(v) => LitV::Scalar(*v),
            Literal::U64(v) => LitV::U64(*v),
        }
    }
}

impl Literal {
    /// Copies the literal, preserving its model.
    pub fn clone_lit(&self) -> (r: Literal)
        ensures
            r@ == self@,
    {
        match self {
            Literal::Address(s) => Literal::Address(s.clone()),
            Literal::Boolean(b) => Literal::Boolean(*b),
            Literal::Field(s) => Literal::Field(s.clone()),
            Literal::Group(s) => Literal::Group(s.clone()),
            Literal::Scalar(v) => Literal::Scalar(*v),
            Literal::U64(v) => Literal::U64(*v),
        }
    }
}

/// A plaintext value: a literal, or an ordered struct of named members.
#[derive(Debug, PartialEq, Eq)]
pub enum Plaintext {
    Literal(Literal),
    Struct(Vec<(Identifier, Plaintext)>),
}

/// The model of a plaintext.
pub open spec fn pt_view(p: Plaintext) -> PtV
    decreases p,
{
    match p {
        Plaintext::Literal(l) => PtV::Literal(l@),
        Plaintext::Struct(ms) => PtV::Struct(pt_members_view(ms@)),
    }
}

pub open spec fn pt_members_view(ms: Seq<(Identifier, Plaintext)>) -> Seq<(Seq<char>, PtV)>
    decreases ms,
{
    if ms.len() == 0 {
        Seq::empty()
    } else {
        seq![(ms[0].0@, pt_view(ms[0].1))].add(pt_members_view(ms.subrange(1, ms.len() as int)))
    }
}

impl View for Plaintext {
    type V = PtV;

    open spec fn view(&self) -> PtV {
        pt_view(*self)
    }
}

/// The member view is the element-wise view.
pub proof fn lemma_pt_members_view(ms: Seq<(Identifier, Plaintext)>)
    ensures
        pt_members_view(ms).len() == ms.len(),
        forall|i: int|
            0 <= i < ms.len() ==> #[trigger] pt_members_view(ms)[i] == (
                ms[i].0@,
                pt_view(ms[i].1),
            ),
    decreases ms,
{
    if ms.len() > 0 {
        lemma_pt_members_view(ms.subrange(1, ms.len() as int));
    }
}

/// Appending a member appends its view.
pub proof fn lemma_pt_members_view_snoc(ms: Seq<(Identifier, Plaintext)>, x: (Identifier, Plaintext))
    ensures
        pt_members_view(ms.push(x)) == pt_members_view(ms).push((x.0@, pt_view(x.1))),
    decreases ms,
{
    if ms.len() == 0 {
        assert(ms.push(x)[0] == x);
        assert(ms.push(x).subrange(1, 1) =~= Seq::<(Identifier, Plaintext)>::empty());
        assert(ms.push(x).len() == 1);
        assert(pt_members_view(ms.push(x)) == seq![(ms.push(x)[0].0@, pt_view(ms.push(x)[0].1))]
            .add(pt_members_view(ms.push(x).subrange(1, 1))));
        assert(pt_members_view(ms.push(x).subrange(1, 1)) == Seq::<(Seq<char>, PtV)>::empty());
        assert(pt_members_view(ms) == Seq::<(Seq<char>, PtV)>::empty());
        assert(pt_members_view(ms.push(x)) =~= pt_members_view(ms).push((x.0@, pt_view(x.1))));
    } else {
        let t = ms.subrange(1, ms.len() as int);
        lemma_pt_members_view_snoc(t, x);
        assert(ms.push(x).subrange(1, ms.len() as int + 1) =~= t.push(x));
        assert(ms.push(x)[0] == ms[0]);
        assert(pt_members_view(ms.push(x)) == seq![(ms[0].0@, pt_view(ms[0].1))].add(
            pt_members_view(t.push(x)),
        ));
        assert(pt_members_view(ms) == seq![(ms[0].0@, pt_view(ms[0].1))].add(pt_members_view(t)));
        assert(seq![(ms[0].0@, pt_view(ms[0].1))].add(
            pt_members_view(t).push((x.0@, pt_view(x.1))),
        ) =~= seq![(ms[0].0@, pt_view(ms[0].1))].add(pt_members_view(t)).push(
            (x.0@, pt_view(x.1)),
        ));
    }
}

/// A record entry: a plaintext tagged with exactly one visibility.
#[derive(Debug, PartialEq, Eq)]
pub struct Entry {
    pub vis: Mode,
    pub plaintext: Plaintext,
}

impl View for Entry {
    type V = EntryV;

    open spec fn view(&self) -> EntryV {
        EntryV { vis: self.vis, pt: pt_view(self.plaintext) }
    }
}

/// A value: a plaintext, or a record of named entries with per-entry
/// visibility.
#[derive(Debug, PartialEq, Eq)]
pub enum Value {
    Plaintext(Plaintext),
    Record(Vec<(Identifier, Entry)>),
}

pub open spec fn rec_entries_view(es: Seq<(Identifier, Entry)>) -> Seq<(Seq<char>, EntryV)>
    decreases es,
{
    if es.len() == 0 {
        Seq::empty()
    } else {
        seq![(es[0].0@, es[0].1@)].add(rec_entries_view(es.subrange(1, es.len() as int)))
    }
}

impl View for Value {
    type V = ValV;

    open spec fn view(&self) -> ValV {
        match self {
            Value::Plaintext(p) => ValV::Plaintext(pt_view(*p)),
            Value::Record(es) => ValV::Record(rec_entries_view(es@)),
        }
    }
}

/// The entry view is the element-wise view.
pub proof fn lemma_rec_entries_view(es: Seq<(Identifier, Entry)>)
    ensures
        rec_entries_view(es).len() == es.len(),
        forall|i: int|
            0 <= i < es.len() ==> #[trigger] rec_entries_view(es)[i] == (es[i].0@, es[i].1@),
    decreases es,
{
    if es.len() > 0 {
        lemma_rec_entries_view(es.subrange(1, es.len() as int));
    }
}

/// Appending an entry appends its view.
pub proof fn lemma_rec_entries_view_snoc(es: Seq<(Identifier, Entry)>, x: (Identifier, Entry))
    ensures
        rec_entries_view(es.push(x)) == rec_entries_view(es).push((x.0@, x.1@)),
    decreases es,
{
    if es.len() == 0 {
        assert(es.push(x)[0] == x);
        assert(es.push(x).subrange(1, 1) =~= Seq::<(Identifier, Entry)>::empty());
        assert(es.push(x).len() == 1);
        assert(rec_entries_view(es.push(x)) == seq![(es.push(x)[0].0@, es.push(x)[0].1@)].add(
            rec_entries_view(es.push(x).subrange(1, 1)),
        ));
        assert(rec_entries_view(es.push(x).subrange(1, 1)) == Seq::<(Seq<char>, EntryV)>::empty());
        assert(rec_entries_view(es) == Seq::<(Seq<char>, EntryV)>::empty());
        assert(rec_entries_view(es.push(x)) =~= rec_entries_view(es).push((x.0@, x.1@)));
    } else {
        let t = es.subrange(1, es.len() as int);
        lemma_rec_entries_view_snoc(t, x);
        assert(es.push(x).subrange(1, es.len() as int + 1) =~= t.push(x));
        assert(es.push(x)[0] == es[0]);
        assert(rec_entries_view(es.push(x)) == seq![(es[0].0@, es[0].1@)].add(
            rec_entries_view(t.push(x)),
        ));
        assert(rec_entries_view(es) == seq![(es[0].0@, es[0].1@)].add(rec_entries_view(t)));
        assert(seq![(es[0].0@, es[0].1@)].add(rec_entries_view(t).push((x.0@, x.1@))) =~= seq![
            (es[0].0@, es[0].1@),
        ].add(rec_entries_view(t)).push((x.0@, x.1@)));
    }
}

impl Plaintext {
    /// Copies the plaintext, preserving its model.
    pub fn clone_pt(&self) -> (r: Plaintext)
        ensures
            r@ == self@,
        decreases *self,
    {
        match self {
            Plaintext::Literal(l) => Plaintext::Literal(l.clone_lit()),
            Plaintext::Struct(ms) => {
                let n = ms.len();
                let mut out: Vec<(Identifier, Plaintext)> = Vec::new();
                let mut i: usize = 0;
                while i < n
                    invariant
                        i <= n,
                        n == ms@.len(),
                        *self is Struct,
                        self->Struct_0 == *ms,
                        out@.len() == i,
                        pt_members_view(out@) =~= pt_members_view(ms@.subrange(0, i as int)),
                    decreases n - i,
                {
                    let name = ms[i].0.clone_id();
                    proof {
                        assert(name@ == ms@[i as int].0@);
                    }
                    let pt = ms[i].1.clone_pt();
                    let ghost pre = out@;
                    let ghost elem = (name, pt);
                    out.push((name, pt));
                    i = i + 1;
                    proof {
                        lemma_pt_members_view_snoc(pre, elem);
                        lemma_pt_members_view_snoc(ms@.subrange(0, i - 1), ms@[i - 1]);
                        assert(out@ == pre.push(elem));
                        assert(ms@.subrange(0, i as int) =~= ms@.subrange(0, i - 1).push(
                            ms@[i - 1],
                        ));
                        assert(pt_members_view(out@) =~= pt_members_view(
                            ms@.subrange(0, i as int),
                        ));
                    }
                }
                proof {
                    assert(ms@.subrange(0, n as int) =~= ms@);
                }
                Plaintext::Struct(out)
            },
        }
    }
}

impl Value {
    /// Copies the value, preserving its model.
    pub fn clone_value(&self) -> (r: Value)
        ensures
            r@ == self@,
    {
        match self {
            Value::Plaintext(p) => Value::Plaintext(p.clone_pt()),
            Value::Record(es) => {
                let n = es.len();
                let mut out: Vec<(Identifier, Entry)> = Vec::new();
                let mut i: usize = 0;
                while i < n
                    invariant
                        i <= n,
                        n == es@.len(),
                        *self is Record,
                        self->Record_0 == *es,
                        out@.len() == i,
                        rec_entries_view(out@) =~= rec_entries_view(es@.subrange(0, i as int)),
                    decreases n - i,
                {
                    let name = es[i].0.clone_id();
                    proof {
                        assert(name@ == es@[i as int].0@);
                    }
                    let e = Entry { vis: es[i].1.vis, plaintext: es[i].1.plaintext.clone_pt() };
                    let ghost pre = out@;
                    let ghost elem = (name, e);
                    out.push((name, e));
                    i = i + 1;
                    proof {
                        lemma_rec_entries_view_snoc(pre, elem);
                        lemma_rec_entries_view_snoc(es@.subrange(0, i - 1), es@[i - 1]);
                        assert(out@ == pre.push(elem));
                        assert(es@.subrange(0, i as int) =~= es@.subrange(0, i - 1).push(
                            es@[i - 1],
                        ));
                        assert(rec_entries_view(out@) =~= rec_entries_view(
                            es@.subrange(0, i as int),
                        ));
                    }
                }
                proof {
                    assert(es@.subrange(0, n as int) =~= es@);
                }
                Value::Record(out)
            },
        }
    }
}

// ---------------------------------------------------------------------------
// The circuit domain: values whose literals carry a visibility mode.
// ---------------------------------------------------------------------------

/// The model of a circuit plaintext: each literal is a symbolic variable
/// with a visibility mode.
pub enum CPtV {
    Literal(Mode, LitV),
    Struct(Seq<(Seq<char>, CPtV)>),
}

/// The model of a circuit record entry.
pub struct CEntryV {
    pub vis: Mode,
    pub pt: CPtV,
}

/// The model of a circuit value.
pub enum CValV {
    Plaintext(CPtV),
    Record(Seq<(Seq<char>, CEntryV)>),
}

/// Projects a circuit plaintext to its plain value: the modes are dropped,
/// the structure and the carried values stay.
pub open spec fn cptv_proj(p: CPtV) -> PtV
    decreases p,
{
    match p {
        CPtV::Literal(_, l) => PtV::Literal(l),
        CPtV::Struct(ms) => PtV::Struct(cptv_members_proj(ms)),
    }
}

pub open spec fn cptv_members_proj(ms: Seq<(Seq<char>, CPtV)>) -> Seq<(Seq<char>, PtV)>
    decreases ms,
{
    if ms.len() == 0 {
        Seq::empty()
    } else {
        seq![(ms[0].0, cptv_proj(ms[0].1))].add(cptv_members_proj(ms.subrange(1, ms.len() as int)))
    }
}

/// Projects a circuit value to its plain value.
pub open spec fn cvalv_proj(v: CValV) -> ValV {
    match v {
        CValV::Plaintext(p) => ValV::Plaintext(cptv_proj(p)),
        CValV::Record(es) => ValV::Record(centries_proj(es)),
    }
}

pub open spec fn centries_proj(es: Seq<(Seq<char>, CEntryV)>) -> Seq<(Seq<char>, EntryV)>
    decreases es,
{
    if es.len() == 0 {
        Seq::empty()
    } else {
        seq![(es[0].0, EntryV { vis: es[0].1.vis, pt: cptv_proj(es[0].1.pt) })].add(
            centries_proj(es.subrange(1, es.len() as int)),
        )
    }
}

pub proof fn lemma_cptv_members_proj(ms: Seq<(Seq<char>, CPtV)>)
    ensures
        cptv_members_proj(ms).len() == ms.len(),
        forall|i: int|
            0 <= i < ms.len() ==> #[trigger] cptv_members_proj(ms)[i] == (
                ms[i].0,
                cptv_proj(ms[i].1),
            ),
    decreases ms,
{
    if ms.len() > 0 {
        lemma_cptv_members_proj(ms.subrange(1, ms.len() as int));
    }
}

pub proof fn lemma_centries_proj(es: Seq<(Seq<char>, CEntryV)>)
    ensures
        centries_proj(es).len() == es.len(),
        forall|i: int|
            0 <= i < es.len() ==> #[trigger] centries_proj(es)[i] == (
                es[i].0,
                EntryV { vis: es[i].1.vis, pt: cptv_proj(es[i].1.pt) },
            ),
    decreases es,
{
    if es.len() > 0 {
        lemma_centries_proj(es.subrange(1, es.len() as int));
    }
}

/// The index of the first circuit member with the given name, or -1.
pub open spec fn cmember_index(ms: Seq<(Seq<char>, CPtV)>, name: Seq<char>, i: int) -> int
    decreases ms.len() - i,
{
    if i < 0 || i >= ms.len() {
        -1
    } else if ms[i].0 == name {
        i
    } else {
        cmember_index(ms, name, i + 1)
    }
}

/// The index of the first circuit entry with the given name, or -1.
pub open spec fn centry_index(es: Seq<(Seq<char>, CEntryV)>, name: Seq<char>, i: int) -> int
    decreases es.len() - i,
{
    if i < 0 || i >= es.len() {
        -1
    } else if es[i].0 == name {
        i
    } else {
        centry_index(es, name, i + 1)
    }
}

/// Find-by-path over circuit plaintexts, structurally identical to the
/// native `ptv_find`.
pub open spec fn cptv_find(p: CPtV, path: Seq<Seq<char>>) -> Result<CPtV, VmError>
    decreases p,
{
    if path.len() == 0 {
        Ok(p)
    } else {
        match p {
            CPtV::Literal(_, _) => Err(VmError::PathNotFound),
            CPtV::Struct(ms) => {
                let i = cmember_index(ms, path[0], 0);
                if 0 <= i < ms.len() {
                    cptv_find(ms[i].1, path.subrange(1, path.len() as int))
                } else {
                    Err(VmError::PathNotFound)
                }
            },
        }
    }
}

/// Resolution over circuit values: the first segment of a record path selects
/// an entry and discards its visibility, exactly as in the native domain.
pub open spec fn cvalv_resolve(v: CValV, path: Seq<Seq<char>>) -> Result<CPtV, VmError> {
    match v {
        CValV::Plaintext(p) => cptv_find(p, path),
        CValV::Record(es) => {
            if path.len() == 0 {
                Err(VmError::PathNotFound)
            } else {
                let i = centry_index(es, path[0], 0);
                if 0 <= i < es.len() {
                    cptv_find(es[i].1.pt, path.subrange(1, path.len() as int))
                } else {
                    Err(VmError::PathNotFound)
                }
            }
        },
    }
}

/// Projection preserves member names, so both domains select members at the
/// same index.
pub proof fn lemma_member_index_proj(ms: Seq<(Seq<char>, CPtV)>, name: Seq<char>, i: int)
    requires
        0 <= i <= ms.len(),
    ensures
        member_index(cptv_members_proj(ms), name, i) == cmember_index(ms, name, i),
    decreases ms.len() - i,
{
    lemma_cptv_members_proj(ms);
    if i < ms.len() {
        lemma_member_index_proj(ms, name, i + 1);
    }
}

pub proof fn lemma_entry_index_proj(es: Seq<(Seq<char>, CEntryV)>, name: Seq<char>, i: int)
    requires
        0 <= i <= es.len(),
    ensures
        entry_index(centries_proj(es), name, i) == centry_index(es, name, i),
    decreases es.len() - i,
{
    lemma_centries_proj(es);
    if i < es.len() {
        lemma_entry_index_proj(es, name, i + 1);
    }
}

/// The fidelity of find-by-path: resolving a path against a circuit
/// plaintext and projecting the result equals resolving the same path against
/// the projected plaintext; both domains fail identically.
pub proof fn lemma_find_projects(p: CPtV, path: Seq<Seq<char>>)
    ensures
        match (cptv_find(p, path), ptv_find(cptv_proj(p), path)) {
            (Ok(cr), Ok(r)) => cptv_proj(cr) == r,
            (Err(e1), Err(e2)) => e1 == e2,
            _ => false,
        },
    decreases p,
{
    if path.len() > 0 {
        match p {
            CPtV::Literal(_, _) => {
            },
            CPtV::Struct(ms) => {
                lemma_member_index_proj(ms, path[0], 0);
                lemma_cptv_members_proj(ms);
                let i = cmember_index(ms, path[0], 0);
                if 0 <= i < ms.len() {
                    lemma_find_projects(ms[i].1, path.subrange(1, path.len() as int));
                }
            },
        }
    }
}

/// The fidelity of value resolution: projection commutes with resolving a
/// register member path, and the two domains fail with the same error.
pub proof fn lemma_resolve_projects(v: CValV, path: Seq<Seq<char>>)
    ensures
        match (cvalv_resolve(v, path), valv_resolve(cvalv_proj(v), path)) {
            (Ok(cr), Ok(r)) => cptv_proj(cr) == r,
            (Err(e1), Err(e2)) => e1 == e2,
            _ => false,
        },
{
    match v {
        CValV::Plaintext(p) => {
            lemma_find_projects(p, path);
        },
        CValV::Record(es) => {
            if path.len() > 0 {
                lemma_entry_index_proj(es, path[0], 0);
                lemma_centries_proj(es);
                let i = centry_index(es, path[0], 0);
                if 0 <= i < es.len() {
                    lemma_find_projects(es[i].1.pt, path.subrange(1, path.len() as int));
                }
            }
        },
    }
}

// ---------------------------------------------------------------------------
// The executable circuit value types.
// ---------------------------------------------------------------------------

/// A circuit plaintext: each literal is a symbolic variable carrying its
/// visibility mode beside the value it witnesses.
#[derive(Debug)]
pub enum CircuitPlaintext {
    Literal(Mode, Literal),
    Struct(Vec<(Identifier, CircuitPlaintext)>),
}

pub open spec fn cpt_view(p: CircuitPlaintext) -> CPtV
    decreases p,
{
    match p {
        CircuitPlaintext::Literal(m, l) => CPtV::Literal(m, l@),
        CircuitPlaintext::Struct(ms) => CPtV::Struct(cpt_members_view(ms@)),
    }
}

pub open spec fn cpt_members_view(ms: Seq<(Identifier, CircuitPlaintext)>) -> Seq<
    (Seq<char>, CPtV),
>
    decreases ms,
{
    if ms.len() == 0 {
        Seq::empty()
    } else {
        seq![(ms[0].0@, cpt_view(ms[0].1))].add(cpt_members_view(ms.subrange(1, ms.len() as int)))
    }
}

impl View for CircuitPlaintext {
    type V = CPtV;

    open spec fn view(&self) -> CPtV {
        cpt_view(*self)
    }
}

pub proof fn lemma_cpt_members_view(ms: Seq<(Identifier, CircuitPlaintext)>)
    ensures
        cpt_members_view(ms).len() == ms.len(),
        forall|i: int|
            0 <= i < ms.len() ==> #[trigger] cpt_members_view(ms)[i] == (
                ms[i].0@,
                cpt_view(ms[i].1),
            ),
    decreases ms,
{
    if ms.len() > 0 {
        lemma_cpt_members_view(ms.subrange(1, ms.len() as int));
    }
}

pub proof fn lemma_cpt_members_view_snoc(
    ms: Seq<(Identifier, CircuitPlaintext)>,
    x: (Identifier, CircuitPlaintext),
)
    ensures
        cpt_members_view(ms.push(x)) == cpt_members_view(ms).push((x.0@, cpt_view(x.1))),
    decreases ms,
{
    if ms.len() == 0 {
        assert(ms.push(x)[0] == x);
        assert(ms.push(x).subrange(1, 1) =~= Seq::<(Identifier, CircuitPlaintext)>::empty());
        assert(ms.push(x).len() == 1);
        assert(cpt_members_view(ms.push(x)) == seq![(ms.push(x)[0].0@, cpt_view(ms.push(x)[0].1))]
            .add(cpt_members_view(ms.push(x).subrange(1, 1))));
        assert(cpt_members_view(ms.push(x).subrange(1, 1)) == Seq::<(Seq<char>, CPtV)>::empty());
        assert(cpt_members_view(ms) == Seq::<(Seq<char>, CPtV)>::empty());
        assert(cpt_members_view(ms.push(x)) =~= cpt_members_view(ms).push((x.0@, cpt_view(x.1))));
    } else {
        let t = ms.subrange(1, ms.len() as int);
        lemma_cpt_members_view_snoc(t, x);
        assert(ms.push(x).subrange(1, ms.len() as int + 1) =~= t.push(x));
        assert(ms.push(x)[0] == ms[0]);
        assert(cpt_members_view(ms.push(x)) == seq![(ms[0].0@, cpt_view(ms[0].1))].add(
            cpt_members_view(t.push(x)),
        ));
        assert(cpt_members_view(ms) == seq![(ms[0].0@, cpt_view(ms[0].1))].add(
            cpt_members_view(t),
        ));
        assert(seq![(ms[0].0@, cpt_view(ms[0].1))].add(
            cpt_members_view(t).push((x.0@, cpt_view(x.1))),
        ) =~= seq![(ms[0].0@, cpt_view(ms[0].1))].add(cpt_members_view(t)).push(
            (x.0@, cpt_view(x.1)),
        ));
    }
}

/// A circuit record entry.
#[derive(Debug)]
pub struct CircuitEntry {
    pub vis: Mode,
    pub plaintext: CircuitPlaintext,
}

impl View for CircuitEntry {
    type V = CEntryV;

    open spec fn view(&self) -> CEntryV {
        CEntryV { vis: self.vis, pt: cpt_view(self.plaintext) }
    }
}

/// A circuit value: the symbolic counterpart of a `Value`.
#[derive(Debug)]
pub enum CircuitValue {
    Plaintext(CircuitPlaintext),
    Record(Vec<(Identifier, CircuitEntry)>),
}

pub open spec fn crec_entries_view(es: Seq<(Identifier, CircuitEntry)>) -> Seq<
    (Seq<char>, CEntryV),
>
    decreases es,
{
    if es.len() == 0 {
        Seq::empty()
    } else {
        seq![(es[0].0@, es[0].1@)].add(crec_entries_view(es.subrange(1, es.len() as int)))
    }
}

impl View for CircuitValue {
    type V = CValV;

    open spec fn view(&self) -> CValV {
        match self {
            CircuitValue::Plaintext(p) => CValV::Plaintext(cpt_view(*p)),
            CircuitValue::Record(es) => CValV::Record(crec_entries_view(es@)),
        }
    }
}

pub proof fn lemma_crec_entries_view(es: Seq<(Identifier, CircuitEntry)>)
    ensures
        crec_entries_view(es).len() == es.len(),
        forall|i: int|
            0 <= i < es.len() ==> #[trigger] crec_entries_view(es)[i] == (es[i].0@, es[i].1@),
    decreases es,
{
    if es.len() > 0 {
        lemma_crec_entries_view(es.subrange(1, es.len() as int));
    }
}

pub proof fn lemma_crec_entries_view_snoc(
    es: Seq<(Identifier, CircuitEntry)>,
    x: (Identifier, CircuitEntry),
)
    ensures
        crec_entries_view(es.push(x)) == crec_entries_view(es).push((x.0@, x.1@)),
    decreases es,
{
    if es.len() == 0 {
        assert(es.push(x)[0] == x);
        assert(es.push(x).subrange(1, 1) =~= Seq::<(Identifier, CircuitEntry)>::empty());
        assert(es.push(x).len() == 1);
        assert(crec_entries_view(es.push(x)) == seq![(es.push(x)[0].0@, es.push(x)[0].1@)].add(
            crec_entries_view(es.push(x).subrange(1, 1)),
        ));
        assert(crec_entries_view(es.push(x).subrange(1, 1)) == Seq::<
            (Seq<char>, CEntryV),
        >::empty());
        assert(crec_entries_view(es) == Seq::<(Seq<char>, CEntryV)>::empty());
        assert(crec_entries_view(es.push(x)) =~= crec_entries_view(es).push((x.0@, x.1@)));
    } else {
        let t = es.subrange(1, es.len() as int);
        lemma_crec_entries_view_snoc(t, x);
        assert(es.push(x).subrange(1, es.len() as int + 1) =~= t.push(x));
        assert(es.push(x)[0] == es[0]);
        assert(crec_entries_view(es.push(x)) == seq![(es[0].0@, es[0].1@)].add(
            crec_entries_view(t.push(x)),
        ));
        assert(crec_entries_view(es) == seq![(es[0].0@, es[0].1@)].add(crec_entries_view(t)));
        assert(seq![(es[0].0@, es[0].1@)].add(crec_entries_view(t).push((x.0@, x.1@))) =~= seq![
            (es[0].0@, es[0].1@),
        ].add(crec_entries_view(t)).push((x.0@, x.1@)));
    }
}

impl CircuitPlaintext {
    /// Copies the circuit plaintext, preserving its model.
    pub fn clone_cpt(&self) -> (r: CircuitPlaintext)
        ensures
            r@ == self@,
        decreases *self,
    {
        match self {
            CircuitPlaintext::Literal(m, l) => CircuitPlaintext::Literal(*m, l.clone_lit()),
            CircuitPlaintext::Struct(ms) => {
                let n = ms.len();
                let mut out: Vec<(Identifier, CircuitPlaintext)> = Vec::new();
                let mut i: usize = 0;
                while i < n
                    invariant
                        i <= n,
                        n == ms@.len(),
                        *self is Struct,
                        self->Struct_0 == *ms,
                        out@.len() == i,
                        cpt_members_view(out@) =~= cpt_members_view(ms@.subrange(0, i as int)),
                    decreases n - i,
                {
                    let name = ms[i].0.clone_id();
                    proof {
                        assert(name@ == ms@[i as int].0@);
                    }
                    let pt = ms[i].1.clone_cpt();
                    let ghost pre = out@;
                    let ghost elem = (name, pt);
                    out.push((name, pt));
                    i = i + 1;
                    proof {
                        lemma_cpt_members_view_snoc(pre, elem);
                        lemma_cpt_members_view_snoc(ms@.subrange(0, i - 1), ms@[i - 1]);
                        assert(out@ == pre.push(elem));
                        assert(ms@.subrange(0, i as int) =~= ms@.subrange(0, i - 1).push(
                            ms@[i - 1],
                        ));
                        assert(cpt_members_view(out@) =~= cpt_members_view(
                            ms@.subrange(0, i as int),
                        ));
                    }
                }
                proof {
                    assert(ms@.subrange(0, n as int) =~= ms@);
                }
                CircuitPlaintext::Struct(out)
            },
        }
    }

    /// Ejects the plain plaintext: drops the visibility modes, keeping the
    /// witnessed values and the structure.
    pub fn eject(&self) -> (r: Plaintext)
        ensures
            r@ == cptv_proj(self@),
        decreases *self,
    {
        match self {
            CircuitPlaintext::Literal(_, l) => Plaintext::Literal(l.clone_lit()),
            CircuitPlaintext::Struct(ms) => {
                let n = ms.len();
                let mut out: Vec<(Identifier, Plaintext)> = Vec::new();
                let mut i: usize = 0;
                while i < n
                    invariant
                        i <= n,
                        n == ms@.len(),
                        *self is Struct,
                        self->Struct_0 == *ms,
                        out@.len() == i,
                        pt_members_view(out@) =~= cptv_members_proj(
                            cpt_members_view(ms@.subrange(0, i as int)),
                        ),
                    decreases n - i,
                {
                    let name = ms[i].0.clone_id();
                    proof {
                        assert(name@ == ms@[i as int].0@);
                    }
                    let pt = ms[i].1.eject();
                    let ghost pre = out@;
                    let ghost elem = (name, pt);
                    out.push((name, pt));
                    i = i + 1;
                    proof {
                        lemma_pt_members_view_snoc(pre, elem);
                        lemma_cpt_members_view_snoc(ms@.subrange(0, i - 1), ms@[i - 1]);
                        assert(out@ == pre.push(elem));
                        assert(ms@.subrange(0, i as int) =~= ms@.subrange(0, i - 1).push(
                            ms@[i - 1],
                        ));
                        lemma_cptv_members_proj_snoc(
                            cpt_members_view(ms@.subrange(0, i - 1)),
                            (ms@[i - 1].0@, cpt_view(ms@[i - 1].1)),
                        );
                        assert(pt_members_view(out@) =~= cptv_members_proj(
                            cpt_members_view(ms@.subrange(0, i as int)),
                        ));
                    }
                }
                proof {
                    assert(ms@.subrange(0, n as int) =~= ms@);
                }
                Plaintext::Struct(out)
            },
        }
    }
}

/// Appending a circuit member appends its projection.
pub proof fn lemma_cptv_members_proj_snoc(ms: Seq<(Seq<char>, CPtV)>, x: (Seq<char>, CPtV))
    ensures
        cptv_members_proj(ms.push(x)) == cptv_members_proj(ms).push((x.0, cptv_proj(x.1))),
    decreases ms,
{
    if ms.len() == 0 {
        assert(ms.push(x)[0] == x);
        assert(ms.push(x).subrange(1, 1) =~= Seq::<(Seq<char>, CPtV)>::empty());
        assert(ms.push(x).len() == 1);
        assert(cptv_members_proj(ms.push(x)) == seq![
            (ms.push(x)[0].0, cptv_proj(ms.push(x)[0].1)),
        ].add(cptv_members_proj(ms.push(x).subrange(1, 1))));
        assert(cptv_members_proj(ms.push(x).subrange(1, 1)) == Seq::<(Seq<char>, PtV)>::empty());
        assert(cptv_members_proj(ms) == Seq::<(Seq<char>, PtV)>::empty());
        assert(cptv_members_proj(ms.push(x)) =~= cptv_members_proj(ms).push(
            (x.0, cptv_proj(x.1)),
        ));
    } else {
        let t = ms.subrange(1, ms.len() as int);
        lemma_cptv_members_proj_snoc(t, x);
        assert(ms.push(x).subrange(1, ms.len() as int + 1) =~= t.push(x));
        assert(ms.push(x)[0] == ms[0]);
        assert(cptv_members_proj(ms.push(x)) == seq![(ms[0].0, cptv_proj(ms[0].1))].add(
            cptv_members_proj(t.push(x)),
        ));
        assert(cptv_members_proj(ms) == seq![(ms[0].0, cptv_proj(ms[0].1))].add(
            cptv_members_proj(t),
        ));
        assert(seq![(ms[0].0, cptv_proj(ms[0].1))].add(
            cptv_members_proj(t).push((x.0, cptv_proj(x.1))),
        ) =~= seq![(ms[0].0, cptv_proj(ms[0].1))].add(cptv_members_proj(t)).push(
            (x.0, cptv_proj(x.1)),
        ));
    }
}

/// Appending a circuit entry appends its projection.
pub proof fn lemma_centries_proj_snoc(es: Seq<(Seq<char>, CEntryV)>, x: (Seq<char>, CEntryV))
    ensures
        centries_proj(es.push(x)) == centries_proj(es).push(
            (x.0, EntryV { vis: x.1.vis, pt: cptv_proj(x.1.pt) }),
        ),
    decreases es,
{
    if es.len() == 0 {
        assert(es.push(x)[0] == x);
        assert(es.push(x).subrange(1, 1) =~= Seq::<(Seq<char>, CEntryV)>::empty());
        assert(es.push(x).len() == 1);
        assert(centries_proj(es.push(x)) == seq![
            (
                es.push(x)[0].0,
                EntryV { vis: es.push(x)[0].1.vis, pt: cptv_proj(es.push(x)[0].1.pt) },
            ),
        ].add(centries_proj(es.push(x).subrange(1, 1))));
        assert(centries_proj(es.push(x).subrange(1, 1)) == Seq::<(Seq<char>, EntryV)>::empty());
        assert(centries_proj(es) == Seq::<(Seq<char>, EntryV)>::empty());
        assert(centries_proj(es.push(x)) =~= centries_proj(es).push(
            (x.0, EntryV { vis: x.1.vis, pt: cptv_proj(x.1.pt) }),
        ));
    } else {
        let t = es.subrange(1, es.len() as int);
        lemma_centries_proj_snoc(t, x);
        assert(es.push(x).subrange(1, es.len() as int + 1) =~= t.push(x));
        assert(es.push(x)[0] == es[0]);
        let h = (es[0].0, EntryV { vis: es[0].1.vis, pt: cptv_proj(es[0].1.pt) });
        assert(centries_proj(es.push(x)) == seq![h].add(centries_proj(t.push(x))));
        assert(centries_proj(es) == seq![h].add(centries_proj(t)));
        let xe = (x.0, EntryV { vis: x.1.vis, pt: cptv_proj(x.1.pt) });
        assert(seq![h].add(centries_proj(t).push(xe)) =~= seq![h].add(centries_proj(t)).push(xe));
    }
}

impl CircuitValue {
    /// Copies the circuit value, preserving its model.
    pub fn clone_cvalue(&self) -> (r: CircuitValue)
        ensures
            r@ == self@,
    {
        match self {
            CircuitValue::Plaintext(p) => CircuitValue::Plaintext(p.clone_cpt()),
            CircuitValue::Record(es) => {
                let n = es.len();
                let mut out: Vec<(Identifier, CircuitEntry)> = Vec::new();
                let mut i: usize = 0;
                while i < n
                    invariant
                        i <= n,
                        n == es@.len(),
                        *self is Record,
                        self->Record_0 == *es,
                        out@.len() == i,
                        crec_entries_view(out@) =~= crec_entries_view(es@.subrange(0, i as int)),
                    decreases n - i,
                {
                    let name = es[i].0.clone_id();
                    proof {
                        assert(name@ == es@[i as int].0@);
                    }
                    let e = CircuitEntry {
                        vis: es[i].1.vis,
                        plaintext: es[i].1.plaintext.clone_cpt(),
                    };
                    let ghost pre = out@;
                    let ghost elem = (name, e);
                    out.push((name, e));
                    i = i + 1;
                    proof {
                        lemma_crec_entries_view_snoc(pre, elem);
                        lemma_crec_entries_view_snoc(es@.subrange(0, i - 1), es@[i - 1]);
                        assert(out@ == pre.push(elem));
                        assert(es@.subrange(0, i as int) =~= es@.subrange(0, i - 1).push(
                            es@[i - 1],
                        ));
                        assert(crec_entries_view(out@) =~= crec_entries_view(
                            es@.subrange(0, i as int),
                        ));
                    }
                }
                proof {
                    assert(es@.subrange(0, n as int) =~= es@);
                }
                CircuitValue::Record(out)
            },
        }
    }

    /// Ejects the plain value of the circuit value: its projection into the
    /// native domain.
    pub fn eject(&self) -> (r: Value)
        ensures
            r@ == cvalv_proj(self@),
    {
        match self {
            CircuitValue::Plaintext(p) => Value::Plaintext(p.eject()),
            CircuitValue::Record(es) => {
                let n = es.len();
                let mut out: Vec<(Identifier, Entry)> = Vec::new();
                let mut i: usize = 0;
                while i < n
                    invariant
                        i <= n,
                        n == es@.len(),
                        *self is Record,
                        self->Record_0 == *es,
                        out@.len() == i,
                        rec_entries_view(out@) =~= centries_proj(
                            crec_entries_view(es@.subrange(0, i as int)),
                        ),
                    decreases n - i,
                {
                    let name = es[i].0.clone_id();
                    proof {
                        assert(name@ == es@[i as int].0@);
                    }
                    let e = Entry { vis: es[i].1.vis, plaintext: es[i].1.plaintext.eject() };
                    let ghost pre = out@;
                    let ghost elem = (name, e);
                    out.push((name, e));
                    i = i + 1;
                    proof {
                        lemma_rec_entries_view_snoc(pre, elem);
                        lemma_crec_entries_view_snoc(es@.subrange(0, i - 1), es@[i - 1]);
                        assert(out@ == pre.push(elem));
                        assert(es@.subrange(0, i as int) =~= es@.subrange(0, i - 1).push(
                            es@[i - 1],
                        ));
                        lemma_centries_proj_snoc(
                            crec_entries_view(es@.subrange(0, i - 1)),
                            (es@[i - 1].0@, es@[i - 1].1@),
                        );
                        assert(rec_entries_view(out@) =~= centries_proj(
                            crec_entries_view(es@.subrange(0, i as int)),
                        ));
                    }
                }
                proof {
                    assert(es@.subrange(0, n as int) =~= es@);
                }
                Value::Record(out)
            },
        }
    }
}

} // verus!
