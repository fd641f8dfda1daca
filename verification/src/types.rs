//! Declared register types: the shapes of literals, structs and records that
//! the register file checks every resolved value against at load time.

use vstd::prelude::*;
use crate::ident::Identifier;
use crate::mode::Mode;
use crate::value::{LitV, PtV, ValV, Plaintext, Value, pt_view, pt_members_view, rec_entries_view,
    lemma_pt_members_view, lemma_rec_entries_view};

verus! {

/// The type of a literal.
#[derive(Clone, Copy, Debug, PartialEq, Eq, Structural)]
pub enum LitType {
    Address,
    Boolean,
    Field,
    Group,
    Scalar,
    U64,
}

/// The type of a plaintext: a literal type, or a struct shape.
#[derive(Debug)]
pub enum PlainType {
    Literal(LitType),
    Struct(Vec<(Identifier, PlainType)>),
}

/// The model of a plaintext type.
pub enum PTyV {
    Literal(LitType),
    Struct(Seq<(Seq<char>, PTyV)>),
}

pub open spec fn pty_view(t: PlainType) -> PTyV
    decreases t,
{
    match t {
        PlainType::Literal(lt) => PTyV::Literal(lt),
        PlainType::Struct(ts) => PTyV::Struct(pty_members_view(ts@)),
    }
}

pub open spec fn pty_members_view(ts: Seq<(Identifier, PlainType)>) -> Seq<(Seq<char>, PTyV)>
    decreases ts,
{
    if ts.len() == 0 {
        Seq::empty()
    } else {
        seq![(ts[0].0@, pty_view(ts[0].1))].add(pty_members_view(ts.subrange(1, ts.len() as int)))
    }
}

impl View for PlainType {
    type V = PTyV;

    open spec fn view(&self) -> PTyV {
        pty_view(*self)
    }
}

pub proof fn lemma_pty_members_view(ts: Seq<(Identifier, PlainType)>)
    ensures
        pty_members_view(ts).len() == ts.len(),
        forall|i: int|
            0 <= i < ts.len() ==> #[trigger] pty_members_view(ts)[i] == (
                ts[i].0@,
                pty_view(ts[i].1),
            ),
    decreases ts,
{
    if ts.len() > 0 {
        lemma_pty_members_view(ts.subrange(1, ts.len() as int));
    }
}

/// The declared type of a record entry: a visibility and a plaintext type.
#[derive(Debug)]
pub struct EntryType {
    pub vis: Mode,
    pub ty: PlainType,
}

/// The model of an entry type.
pub struct ETyV {
    pub vis: Mode,
    pub ty: PTyV,
}

impl View for EntryType {
    type V = ETyV;

    open spec fn view(&self) -> ETyV {
        ETyV { vis: self.vis, ty: pty_view(self.ty) }
    }
}

/// The declared type of a register: a plaintext shape or a record shape.
#[derive(Debug)]
pub enum RegType {
    Plaintext(PlainType),
    Record(Vec<(Identifier, EntryType)>),
}

/// The model of a register type.
pub enum RegTyV {
    Plaintext(PTyV),
    Record(Seq<(Seq<char>, ETyV)>),
}

pub open spec fn ety_members_view(ts: Seq<(Identifier, EntryType)>) -> Seq<(Seq<char>, ETyV)>
    decreases ts,
{
    if ts.len() == 0 {
        Seq::empty()
    } else {
        seq![(ts[0].0@, ts[0].1@)].add(ety_members_view(ts.subrange(1, ts.len() as int)))
    }
}

impl View for RegType {
    type V = RegTyV;

    open spec fn view(&self) -> RegTyV {
        match self {
            RegType::Plaintext(t) => RegTyV::Plaintext(pty_view(*t)),
            RegType::Record(ts) => RegTyV::Record(ety_members_view(ts@)),
        }
    }
}

pub proof fn lemma_ety_members_view(ts: Seq<(Identifier, EntryType)>)
    ensures
        ety_members_view(ts).len() == ts.len(),
        forall|i: int|
            0 <= i < ts.len() ==> #[trigger] ety_members_view(ts)[i] == (ts[i].0@, ts[i].1@),
    decreases ts,
{
    if ts.len() > 0 {
        lemma_ety_members_view(ts.subrange(1, ts.len() as int));
    }
}

// ---------------------------------------------------------------------------
// Shape matching.
// ---------------------------------------------------------------------------

/// A literal matches its literal type exactly by kind.
pub open spec fn lit_matches(l: LitV, t: LitType) -> bool {
    match (l, t) {
        (LitV::Address(_), LitType::Address) => true,
        (LitV::Boolean(_), LitType::Boolean) => true,
        (LitV::Field(_), LitType::Field) => true,
        (LitV::Group(_), LitType::Group) => true,
        (LitV::Scalar(_), LitType::Scalar) => true,
        (LitV::U64(_), LitType::U64) => true,
        (_, _) => false,
    }
}

/// A plaintext matches a plaintext type: same literal kind, or the same
/// struct shape, member by member.
pub open spec fn ptv_matches(p: PtV, t: PTyV) -> bool
    decreases t,
{
    match (p, t) {
        (PtV::Literal(l), PTyV::Literal(lt)) => lit_matches(l, lt),
        (PtV::Struct(ms), PTyV::Struct(ts)) => ms.len() == ts.len() && ptv_members_match(ms, ts),
        (_, _) => false,
    }
}

pub open spec fn ptv_members_match(ms: Seq<(Seq<char>, PtV)>, ts: Seq<(Seq<char>, PTyV)>) -> bool
    decreases ts,
{
    if ts.len() == 0 || ms.len() == 0 {
        true
    } else {
        ms[0].0 == ts[0].0 && ptv_matches(ms[0].1, ts[0].1) && ptv_members_match(
            ms.subrange(1, ms.len() as int),
            ts.subrange(1, ts.len() as int),
        )
    }
}

/// A value matches a register type: a plaintext against a plaintext shape, a
/// record against a record shape with equal names, visibilities and member
/// types.
pub open spec fn valv_matches(v: ValV, t: RegTyV) -> bool {
    match (v, t) {
        (ValV::Plaintext(p), RegTyV::Plaintext(pt)) => ptv_matches(p, pt),
        (ValV::Record(es), RegTyV::Record(ts)) => es.len() == ts.len() && entries_match(es, ts),
        (_, _) => false,
    }
}

pub open spec fn entries_match(
    es: Seq<(Seq<char>, crate::value::EntryV)>,
    ts: Seq<(Seq<char>, ETyV)>,
) -> bool
    decreases ts,
{
    if ts.len() == 0 || es.len() == 0 {
        true
    } else {
        es[0].0 == ts[0].0 && es[0].1.vis == ts[0].1.vis && ptv_matches(es[0].1.pt, ts[0].1.ty)
            && entries_match(es.subrange(1, es.len() as int), ts.subrange(1, ts.len() as int))
    }
}

/// Member matching, element by element.
pub proof fn lemma_ptv_members_match_iff(ms: Seq<(Seq<char>, PtV)>, ts: Seq<(Seq<char>, PTyV)>)
    requires
        ms.len() == ts.len(),
    ensures
        ptv_members_match(ms, ts) <==> (forall|i: int|
            0 <= i < ms.len() ==> (#[trigger] ms[i]).0 == ts[i].0 && ptv_matches(
                ms[i].1,
                ts[i].1,
            )),
    decreases ts,
{
    if ts.len() > 0 {
        let mt = ms.subrange(1, ms.len() as int);
        let tt = ts.subrange(1, ts.len() as int);
        lemma_ptv_members_match_iff(mt, tt);
        assert(forall|i: int| 0 <= i < mt.len() ==> #[trigger] mt[i] == ms[i + 1]);
        assert(forall|i: int| 0 <= i < tt.len() ==> #[trigger] tt[i] == ts[i + 1]);
        if ptv_members_match(ms, ts) {
            assert(forall|i: int|
                0 <= i < ms.len() ==> (#[trigger] ms[i]).0 == ts[i].0 && ptv_matches(
                    ms[i].1,
                    ts[i].1,
                )) by {
                assert(forall|i: int|
                    1 <= i < ms.len() ==> ms[i] == mt[i - 1] && ts[i] == tt[i - 1]);
            }
        }
    }
}

/// Entry matching, element by element.
pub proof fn lemma_entries_match_iff(
    es: Seq<(Seq<char>, crate::value::EntryV)>,
    ts: Seq<(Seq<char>, ETyV)>,
)
    requires
        es.len() == ts.len(),
    ensures
        entries_match(es, ts) <==> (forall|i: int|
            0 <= i < es.len() ==> (#[trigger] es[i]).0 == ts[i].0 && es[i].1.vis == ts[i].1.vis
                && ptv_matches(es[i].1.pt, ts[i].1.ty)),
    decreases ts,
{
    if ts.len() > 0 {
        let et = es.subrange(1, es.len() as int);
        let tt = ts.subrange(1, ts.len() as int);
        lemma_entries_match_iff(et, tt);
        assert(forall|i: int| 0 <= i < et.len() ==> #[trigger] et[i] == es[i + 1]);
        assert(forall|i: int| 0 <= i < tt.len() ==> #[trigger] tt[i] == ts[i + 1]);
        if entries_match(es, ts) {
            assert(forall|i: int|
                0 <= i < es.len() ==> (#[trigger] es[i]).0 == ts[i].0 && es[i].1.vis
                    == ts[i].1.vis && ptv_matches(es[i].1.pt, ts[i].1.ty)) by {
                assert(forall|i: int|
                    1 <= i < es.len() ==> es[i] == et[i - 1] && ts[i] == tt[i - 1]);
            }
        }
    }
}

/// Decides whether a literal matches a literal type.
pub fn lit_matches_type(l: &Literal, t: &LitType) -> (r: bool)
    ensures
        r == lit_matches(l@, *t),
{
    match (l, t) {
        (Literal::Address(_), LitType::Address) => true,
        (Literal::Boolean(_), LitType::Boolean) => true,
        (Literal::Field(_), LitType::Field) => true,
        (Literal::Group(_), LitType::Group) => true,
        (Literal::Scalar(_), LitType::Scalar) => true,
        (Literal::U64(_), LitType::U64) => true,
        (_, _) => false,
    }
}

use crate::value::Literal;

/// Decides whether a plaintext matches a plaintext type, shape for shape.
pub fn pt_matches_type(p: &Plaintext, t: &PlainType) -> (r: bool)
    ensures
        r == ptv_matches(pt_view(*p), pty_view(*t)),
    decreases *p,
{
    match (p, t) {
        (Plaintext::Literal(l), PlainType::Literal(lt)) => lit_matches_type(l, lt),
        (Plaintext::Struct(ms), PlainType::Struct(ts)) => {
            proof {
                lemma_pt_members_view(ms@);
                lemma_pty_members_view(ts@);
            }
            let n = ms.len();
            if n != ts.len() {
                return false;
            }
            let mut i: usize = 0;
            while i < n
                invariant
                    i <= n,
                    n == ms@.len() == ts@.len(),
                    *p is Struct,
                    p->Struct_0 == *ms,
                    *t is Struct,
                    t->Struct_0 == *ts,
                    forall|j: int|
                        0 <= j < i ==> (#[trigger] ms@[j]).0@ == ts@[j].0@ && ptv_matches(
                            pt_view(ms@[j].1),
                            pty_view(ts@[j].1),
                        ),
                decreases n - i,
            {
                if !ms[i].0.eq_name(&ts[i].0) {
                    proof {
                        lemma_pt_members_view(ms@);
                        lemma_pty_members_view(ts@);
                        lemma_ptv_members_match_iff(pt_members_view(ms@), pty_members_view(ts@));
                        assert(pt_members_view(ms@)[i as int].0 != pty_members_view(
                            ts@,
                        )[i as int].0);
                    }
                    return false;
                }
                if !pt_matches_type(&ms[i].1, &ts[i].1) {
                    proof {
                        lemma_pt_members_view(ms@);
                        lemma_pty_members_view(ts@);
                        lemma_ptv_members_match_iff(pt_members_view(ms@), pty_members_view(ts@));
                        assert(!ptv_matches(
                            pt_members_view(ms@)[i as int].1,
                            pty_members_view(ts@)[i as int].1,
                        ));
                    }
                    return false;
                }
                i = i + 1;
            }
            proof {
                lemma_pt_members_view(ms@);
                lemma_pty_members_view(ts@);
                lemma_ptv_members_match_iff(pt_members_view(ms@), pty_members_view(ts@));
            }
            true
        },
        (_, _) => false,
    }
}

/// Decides whether a value matches a register type: the type check that every
/// load performs on the resolved value.
pub fn value_matches_type(v: &Value, t: &RegType) -> (r: bool)
    ensures
        r == valv_matches(v@, t@),
{
    match (v, t) {
        (Value::Plaintext(p), RegType::Plaintext(pt)) => pt_matches_type(p, pt),
        (Value::Record(es), RegType::Record(ts)) => {
            proof {
                lemma_rec_entries_view(es@);
                lemma_ety_members_view(ts@);
            }
            let n = es.len();
            if n != ts.len() {
                return false;
            }
            let mut i: usize = 0;
            while i < n
                invariant
                    i <= n,
                    n == es@.len() == ts@.len(),
                    *v is Record,
                    v->Record_0 == *es,
                    *t is Record,
                    t->Record_0 == *ts,
                    forall|j: int|
                        0 <= j < i ==> (#[trigger] es@[j]).0@ == ts@[j].0@ && es@[j].1.vis
                            == ts@[j].1.vis && ptv_matches(
                            pt_view(es@[j].1.plaintext),
                            pty_view(ts@[j].1.ty),
                        ),
                decreases n - i,
            {
                let ghost gi = i as int;
                if !es[i].0.eq_name(&ts[i].0) {
                    proof {
                        lemma_rec_entries_view(es@);
                        lemma_ety_members_view(ts@);
                        lemma_entries_match_iff(rec_entries_view(es@), ety_members_view(ts@));
                        assert(rec_entries_view(es@)[gi].0 != ety_members_view(ts@)[gi].0);
                    }
                    return false;
                }
                let vis_eq = match (es[i].1.vis, ts[i].1.vis) {
                    (Mode::Constant, Mode::Constant) => true,
                    (Mode::Public, Mode::Public) => true,
                    (Mode::Private, Mode::Private) => true,
                    (_, _) => false,
                };
                if !vis_eq {
                    proof {
                        lemma_rec_entries_view(es@);
                        lemma_ety_members_view(ts@);
                        lemma_entries_match_iff(rec_entries_view(es@), ety_members_view(ts@));
                        assert(rec_entries_view(es@)[gi].1.vis != ety_members_view(
                            ts@,
                        )[gi].1.vis);
                    }
                    return false;
                }
                if !pt_matches_type(&es[i].1.plaintext, &ts[i].1.ty) {
                    proof {
                        lemma_rec_entries_view(es@);
                        lemma_ety_members_view(ts@);
                        lemma_entries_match_iff(rec_entries_view(es@), ety_members_view(ts@));
                        assert(!ptv_matches(
                            rec_entries_view(es@)[gi].1.pt,
                            ety_members_view(ts@)[gi].1.ty,
                        ));
                    }
                    return false;
                }
                i = i + 1;
            }
            proof {
                lemma_rec_entries_view(es@);
                lemma_ety_members_view(ts@);
                lemma_entries_match_iff(rec_entries_view(es@), ety_members_view(ts@));
            }
            true
        },
        (_, _) => false,
    }
}

} // verus!
