//! Register addressing: a locator, optionally qualified by a structural
//! access path into an aggregate value, with its text grammar
//! `r<digits>(.<identifier>)*`, its parser, and its locator-only ordering.

use vstd::prelude::*;
use core::cmp::Ordering;
use crate::ident::{Identifier, is_valid_ident, is_ident_char, ident_char, path_model};
use crate::num::{is_dec_digit, dec_val, dec_digits, digit_val, char_to_digit, u64_to_dec,
    lemma_dec_digits_val, lemma_dec_val_push};
use crate::strings::{str_to_chars, chars_to_string};

verus! {

/// A register: the location of a value in the register file. A bare locator
/// addresses the whole stored value; a member register descends through the
/// named path into the stored aggregate.
#[derive(Clone, Debug, Eq, Hash)]
pub enum Register {
    /// A register identified by its locator alone.
    Locator(u64),
    /// A register member: the locator and a non-empty access path.
    Member(u64, Vec<Identifier>),
}

impl Register {
    /// The locator of the register.
    pub open spec fn spec_locator(self) -> u64 {
        match self {
            Register::Locator(l) => l,
            Register::Member(l, _) => l,
        }
    }

    /// The access path, as a sequence of identifier texts (empty for a bare
    /// locator).
    pub open spec fn path_view(self) -> Seq<Seq<char>> {
        match self {
            Register::Locator(_) => Seq::empty(),
            Register::Member(_, p) => path_model(p@),
        }
    }

    /// Well-formedness: a member register has a non-empty path of lexically
    /// valid identifiers.
    pub open spec fn wf(self) -> bool {
        match self {
            Register::Locator(_) => true,
            Register::Member(_, p) => {
                &&& p@.len() >= 1
                &&& forall|i: int| 0 <= i < p@.len() ==> (#[trigger] p@[i]).wf()
            },
        }
    }

    /// Returns the locator of the register.
    pub fn locator(&self) -> (r: u64)
        ensures
            r == self.spec_locator(),
    {
        match self {
            Register::Locator(l) => *l,
            Register::Member(l, _) => *l,
        }
    }

    /// Prints the register in its canonical text form, `r0` or `r0.owner`.
    pub fn to_text(&self) -> (r: String)
        ensures
            r@ == register_text(*self),
    {
        let mut out: Vec<char> = Vec::new();
        out.push('r');
        let digits = u64_to_dec(self.locator());
        let mut i: usize = 0;
        let dn = digits.len();
        while i < dn
            invariant
                i <= dn,
                dn == digits@.len(),
                digits@ == dec_digits(self.spec_locator() as nat),
                out@ =~= seq!['r'].add(digits@.subrange(0, i as int)),
            decreases dn - i,
        {
            out.push(digits[i]);
            i = i + 1;
            proof {
                assert(out@ =~= seq!['r'].add(digits@.subrange(0, i as int)));
            }
        }
        proof {
            assert(digits@.subrange(0, dn as int) =~= digits@);
        }
        let ghost head = seq!['r'].add(dec_digits(self.spec_locator() as nat));
        match self {
            Register::Locator(_) => {
                proof {
                    assert(out@ =~= head.add(path_text(self.path_view())));
                }
            },
            Register::Member(_, path) => {
                let pn = path.len();
                let mut k: usize = 0;
                while k < pn
                    invariant
                        k <= pn,
                        pn == path@.len(),
                        self is Member && self->1 == path,
                        out@ =~= head.add(
                            path_text(path_model(path@).subrange(0, k as int)),
                        ),
                    decreases pn - k,
                {
                    let ghost pre = path_model(path@).subrange(0, k as int);
                    out.push('.');
                    let seg = str_to_chars(path[k].as_str());
                    let mut j: usize = 0;
                    let sn = seg.len();
                    while j < sn
                        invariant
                            j <= sn,
                            sn == seg@.len(),
                            out@ =~= head.add(path_text(pre)).add(seq!['.']).add(
                                seg@.subrange(0, j as int),
                            ),
                            seg@ == path_model(path@)[k as int],
                            k < pn == path@.len(),
                            pre == path_model(path@).subrange(0, k as int),
                        decreases sn - j,
                    {
                        out.push(seg[j]);
                        j = j + 1;
                        proof {
                            assert(out@ =~= head.add(path_text(pre)).add(seq!['.']).add(
                                seg@.subrange(0, j as int),
                            ));
                        }
                    }
                    k = k + 1;
                    proof {
                        let pv = path_model(path@);
                        assert(seg@.subrange(0, sn as int) =~= seg@);
                        lemma_path_text_snoc(pre, seg@);
                        assert(pv.subrange(0, k as int) =~= pre.push(seg@));
                        assert(out@ =~= head.add(path_text(pv.subrange(0, k as int))));
                    }
                }
                proof {
                    let pv = path_model(path@);
                    assert(pv.subrange(0, pn as int) =~= pv);
                }
            },
        }
        chars_to_string(&out)
    }

    /// Parses a register from its text, reporting malformed text as a
    /// `ParseError`.
    pub fn parse(s: &str) -> (r: Result<Register, crate::VmError>)
        ensures
            match r {
                Ok(reg) => reg.wf() && spec_parse_register(s@) == Some(
                    (reg.spec_locator(), reg.path_view()),
                ),
                Err(e) => e == crate::VmError::ParseError && spec_parse_register(s@) is None,
            },
    {
        match Register::from_text(s) {
            Some(reg) => Ok(reg),
            None => Err(crate::VmError::ParseError),
        }
    }

    /// Parses a register from its text, `r<digits>(.<identifier>)*`, the
    /// whole string. Succeeds exactly where the grammar does, with the parsed
    /// locator and path.
    pub fn from_text(s: &str) -> (r: Option<Register>)
        ensures
            match r {
                Some(reg) => reg.wf() && spec_parse_register(s@) == Some(
                    (reg.spec_locator(), reg.path_view()),
                ),
                None => spec_parse_register(s@) is None,
            },
    {
        let cs = str_to_chars(s);
        let n = cs.len();
        if n == 0 {
            return None;
        }
        if cs[0] != 'r' {
            return None;
        }
        // Scan the locator digits.
        let mut i: usize = 1;
        while i < n && char_to_digit(cs[i]).is_some()
            invariant
                1 <= i <= n,
                n == cs@.len(),
                forall|j: int| 1 <= j < i ==> is_dec_digit(#[trigger] cs@[j]),
            decreases n - i,
        {
            i = i + 1;
        }
        proof {
            lemma_digit_run_unique(cs@, 1, i as int);
        }
        if i == 1 {
            return None;
        }
        // Evaluate the digit run, rejecting values beyond the locator range.
        let mut acc: u128 = 0;
        let mut j: usize = 1;
        while j < i
            invariant
                2 <= i <= n,
                1 <= j <= i,
                n == cs@.len(),
                cs@ == s@,
                cs@[0] == 'r',
                digit_run_end(cs@, 1) == i as int,
                forall|t: int| 1 <= t < i ==> is_dec_digit(#[trigger] cs@[t]),
                acc as nat == dec_val(cs@.subrange(1, j as int)),
                acc <= u64::MAX as u128,
            decreases i - j,
        {
            let d = match char_to_digit(cs[j]) {
                Some(d) => d,
                None => {
                    proof {
                        assert(is_dec_digit(cs@[j as int]));
                        assert(false);
                    }
                    return None;
                },
            };
            proof {
                lemma_dec_val_push(cs@.subrange(1, j as int), cs@[j as int]);
                assert(cs@.subrange(1, j as int).push(cs@[j as int]) =~= cs@.subrange(
                    1,
                    j as int + 1,
                ));
            }
            acc = acc * 10 + (d as u128);
            j = j + 1;
            if acc > u64::MAX as u128 {
                proof {
                    lemma_dec_val_prefix_le(cs@.subrange(1, i as int), (j - 1) as int);
                    assert(cs@.subrange(1, i as int).subrange(0, j as int - 1) =~= cs@.subrange(
                        1,
                        j as int,
                    ));
                    assert(dec_val(cs@.subrange(1, i as int)) >= dec_val(
                        cs@.subrange(1, j as int),
                    ));
                    assert(dec_val(cs@.subrange(1, i as int)) > u64::MAX);
                    assert(spec_parse_register(cs@) is None);
                }
                return None;
            }
        }
        proof {
            assert(cs@.subrange(1, i as int) =~= cs@.subrange(1, j as int));
        }
        let loc: u64 = acc as u64;
        // Parse the member path.
        let ghost e0 = i as int;
        let mut parsed: Vec<Identifier> = Vec::new();
        while i < n
            invariant
                2 <= e0 <= i <= n,
                n == cs@.len(),
                cs@ == s@,
                cs@[0] == 'r',
                digit_run_end(cs@, 1) == e0,
                dec_val(cs@.subrange(1, e0)) == loc as nat,
                forall|t: int| 0 <= t < parsed@.len() ==> (#[trigger] parsed@[t]).wf(),
                opt_path_join(
                    path_model(parsed@),
                    spec_parse_path(cs@, i as int),
                ) == spec_parse_path(cs@, e0),
            decreases n - i,
        {
            let ghost pre = path_model(parsed@);
            if cs[i] != '.' {
                proof {
                    assert(spec_parse_path(cs@, i as int) is None);
                    assert(spec_parse_path(cs@, e0) is None);
                    assert(spec_parse_register(cs@) is None);
                }
                return None;
            }
            let start = i + 1;
            let mut e: usize = start;
            while e < n && ident_char(cs[e])
                invariant
                    start <= e <= n,
                    n == cs@.len(),
                    forall|t: int| start <= t < e ==> is_ident_char(#[trigger] cs@[t]),
                decreases n - e,
            {
                e = e + 1;
            }
            proof {
                lemma_ident_run_unique(cs@, start as int, e as int);
            }
            let mut seg: Vec<char> = Vec::new();
            let mut t: usize = start;
            while t < e
                invariant
                    start <= t <= e <= n,
                    n == cs@.len(),
                    seg@ =~= cs@.subrange(start as int, t as int),
                decreases e - t,
            {
                seg.push(cs[t]);
                t = t + 1;
                proof {
                    assert(seg@ =~= cs@.subrange(start as int, t as int));
                }
            }
            let id = match Identifier::from_chars(&seg) {
                Some(id) => id,
                None => {
                    proof {
                        assert(seg@ =~= cs@.subrange(i as int + 1, e as int));
                        assert(spec_parse_path(cs@, i as int) is None);
                        assert(spec_parse_path(cs@, e0) is None);
                        assert(spec_parse_register(cs@) is None);
                    }
                    return None;
                },
            };
            parsed.push(id);
            i = e;
            proof {
                let pv = path_model(parsed@);
                assert(pv =~= pre.push(id@));
                assert(spec_parse_path(cs@, (start - 1) as int) == match spec_parse_path(
                    cs@,
                    e as int,
                ) {
                    Some(rest) => Some(seq![id@].add(rest)),
                    None => None::<Seq<Seq<char>>>,
                });
                lemma_opt_path_join_step(pre, id@, spec_parse_path(cs@, e as int));
            }
        }
        proof {
            let pv = path_model(parsed@);
            assert(spec_parse_path(cs@, n as int) == Some(Seq::<Seq<char>>::empty()));
            assert(pv.add(Seq::empty()) =~= pv);
            assert(spec_parse_path(cs@, e0) == Some(pv));
        }
        if parsed.is_empty() {
            proof {
                assert(path_model(parsed@) =~= Seq::<Seq<char>>::empty());
            }
            Some(Register::Locator(loc))
        } else {
            Some(Register::Member(loc, parsed))
        }
    }
}

/// The text of one path segment: a dot and the identifier.
pub open spec fn seg_text(seg: Seq<char>) -> Seq<char> {
    seq!['.'].add(seg)
}

/// The text of an access path: its segments in order.
pub open spec fn path_text(p: Seq<Seq<char>>) -> Seq<char>
    decreases p.len(),
{
    if p.len() == 0 {
        Seq::empty()
    } else {
        seg_text(p[0]).add(path_text(p.subrange(1, p.len() as int)))
    }
}

/// The canonical text of a register: `r`, the locator digits, the path.
pub open spec fn register_text(reg: Register) -> Seq<char> {
    seq!['r'].add(dec_digits(reg.spec_locator() as nat)).add(path_text(reg.path_view()))
}

pub proof fn lemma_path_text_snoc(p: Seq<Seq<char>>, seg: Seq<char>)
    ensures
        path_text(p.push(seg)) == path_text(p).add(seg_text(seg)),
    decreases p.len(),
{
    if p.len() == 0 {
        assert(p.push(seg)[0] == seg);
        assert(p.push(seg).subrange(1, 1) =~= Seq::<Seq<char>>::empty());
        assert(path_text(p.push(seg)) == seg_text(seg).add(path_text(Seq::empty())));
        assert(seg_text(seg).add(Seq::empty()) =~= Seq::<char>::empty().add(seg_text(seg)));
        assert(path_text(p) == Seq::<char>::empty());
    } else {
        let q = p.subrange(1, p.len() as int);
        lemma_path_text_snoc(q, seg);
        assert(p.push(seg).subrange(1, p.len() as int + 1) =~= q.push(seg));
        assert(p.push(seg)[0] == p[0]);
        assert(path_text(p.push(seg)) == seg_text(p[0]).add(path_text(q.push(seg))));
        assert(path_text(p) == seg_text(p[0]).add(path_text(q)));
        assert(seg_text(p[0]).add(path_text(q).add(seg_text(seg))) =~= seg_text(p[0]).add(
            path_text(q),
        ).add(seg_text(seg)));
    }
}

/// The first index at or after `i` that does not hold a decimal digit.
pub open spec fn digit_run_end(s: Seq<char>, i: int) -> int
    decreases s.len() - i,
{
    if i < 0 || i >= s.len() || !is_dec_digit(s[i]) {
        i
    } else {
        digit_run_end(s, i + 1)
    }
}

/// The first index at or after `i` that does not hold an identifier char.
pub open spec fn ident_run_end(s: Seq<char>, i: int) -> int
    decreases s.len() - i,
{
    if i < 0 || i >= s.len() || !is_ident_char(s[i]) {
        i
    } else {
        ident_run_end(s, i + 1)
    }
}

pub proof fn lemma_digit_run_end(s: Seq<char>, i: int)
    requires
        0 <= i <= s.len(),
    ensures
        i <= digit_run_end(s, i) <= s.len(),
        forall|j: int| i <= j < digit_run_end(s, i) ==> is_dec_digit(#[trigger] s[j]),
        digit_run_end(s, i) < s.len() ==> !is_dec_digit(s[digit_run_end(s, i)]),
    decreases s.len() - i,
{
    if i < s.len() && is_dec_digit(s[i]) {
        lemma_digit_run_end(s, i + 1);
    }
}

/// An index bounding a digit run on both sides is the digit run's end.
pub proof fn lemma_digit_run_unique(s: Seq<char>, i: int, e: int)
    requires
        0 <= i <= e <= s.len(),
        forall|j: int| i <= j < e ==> is_dec_digit(#[trigger] s[j]),
        e < s.len() ==> !is_dec_digit(s[e]),
    ensures
        digit_run_end(s, i) == e,
{
    lemma_digit_run_end(s, i);
    let r = digit_run_end(s, i);
    if r < e {
        assert(is_dec_digit(s[r]));
    }
    if r > e {
        assert(is_dec_digit(s[e]));
    }
}

pub proof fn lemma_ident_run_end(s: Seq<char>, i: int)
    requires
        0 <= i <= s.len(),
    ensures
        i <= ident_run_end(s, i) <= s.len(),
        forall|j: int| i <= j < ident_run_end(s, i) ==> is_ident_char(#[trigger] s[j]),
        ident_run_end(s, i) < s.len() ==> !is_ident_char(s[ident_run_end(s, i)]),
    decreases s.len() - i,
{
    if i < s.len() && is_ident_char(s[i]) {
        lemma_ident_run_end(s, i + 1);
    }
}

/// An index bounding an identifier run on both sides is the run's end.
pub proof fn lemma_ident_run_unique(s: Seq<char>, i: int, e: int)
    requires
        0 <= i <= e <= s.len(),
        forall|j: int| i <= j < e ==> is_ident_char(#[trigger] s[j]),
        e < s.len() ==> !is_ident_char(s[e]),
    ensures
        ident_run_end(s, i) == e,
{
    lemma_ident_run_end(s, i);
    let r = ident_run_end(s, i);
    if r < e {
        assert(is_ident_char(s[r]));
    }
    if r > e {
        assert(is_ident_char(s[e]));
    }
}

/// Parses the member path starting at `i`: a possibly empty sequence of
/// `.` + identifier segments reaching exactly to the end of the text.
pub open spec fn spec_parse_path(s: Seq<char>, i: int) -> Option<Seq<Seq<char>>>
    decreases s.len() - i via spec_parse_path_decreases
{
    if i < 0 || i > s.len() {
        None
    } else if i == s.len() {
        Some(Seq::empty())
    } else if s[i] != '.' {
        None
    } else {
        let e = ident_run_end(s, i + 1);
        let seg = s.subrange(i + 1, e);
        if is_valid_ident(seg) {
            match spec_parse_path(s, e) {
                Some(rest) => Some(seq![seg].add(rest)),
                None => None,
            }
        } else {
            None
        }
    }
}

#[via_fn]
proof fn spec_parse_path_decreases(s: Seq<char>, i: int) {
    if 0 <= i && i < s.len() && s[i] == '.' {
        lemma_ident_run_end(s, i + 1);
    }
}

/// Prefixes a parsed path tail with the already parsed segments.
pub open spec fn opt_path_join(pre: Seq<Seq<char>>, tail: Option<Seq<Seq<char>>>) -> Option<
    Seq<Seq<char>>,
> {
    match tail {
        Some(t) => Some(pre.add(t)),
        None => None,
    }
}

pub proof fn lemma_opt_path_join_step(
    pre: Seq<Seq<char>>,
    seg: Seq<char>,
    tail: Option<Seq<Seq<char>>>,
)
    ensures
        opt_path_join(pre.push(seg), tail) == opt_path_join(
            pre,
            match tail {
                Some(t) => Some(seq![seg].add(t)),
                None => None::<Seq<Seq<char>>>,
            },
        ),
{
    match tail {
        Some(t) => {
            assert(pre.push(seg).add(t) =~= pre.add(seq![seg].add(t)));
        },
        None => {
        },
    }
}

/// Parses register text: `r`, one or more decimal digits whose value fits a
/// locator, then the member path. `None` exactly on text outside the grammar.
pub open spec fn spec_parse_register(s: Seq<char>) -> Option<(u64, Seq<Seq<char>>)> {
    if s.len() < 1 || s[0] != 'r' {
        None
    } else {
        let e = digit_run_end(s, 1);
        if e == 1 {
            None
        } else {
            let digits = s.subrange(1, e);
            if dec_val(digits) > u64::MAX {
                None
            } else {
                match spec_parse_path(s, e) {
                    Some(path) => Some((dec_val(digits) as u64, path)),
                    None => None,
                }
            }
        }
    }
}

/// A digit-string prefix never evaluates above the whole string.
pub proof fn lemma_dec_val_prefix_le(s: Seq<char>, j: int)
    requires
        0 <= j <= s.len(),
    ensures
        dec_val(s.subrange(0, j)) <= dec_val(s),
    decreases s.len(),
{
    if j < s.len() {
        let d = s.drop_last();
        lemma_dec_val_prefix_le(d, j);
        assert(s.subrange(0, j) =~= d.subrange(0, j));
        assert(dec_val(d) * 10 >= dec_val(d));
        assert(dec_val(s) == dec_val(d) * 10 + digit_val(s.last()));
    } else {
        assert(s.subrange(0, j) =~= s);
    }
}

/// The law of the register text grammar: parsing the printed form of any
/// well-formed register yields the same locator and the same path, for every
/// register. Printing is the exact inverse of parsing.
pub proof fn lemma_register_round_trip(reg: Register)
    requires
        reg.wf(),
    ensures
        spec_parse_register(register_text(reg)) == Some((reg.spec_locator(), reg.path_view())),
{
    let s = register_text(reg);
    let digits = dec_digits(reg.spec_locator() as nat);
    let p = reg.path_view();
    lemma_dec_digits_val(reg.spec_locator() as nat);
    assert(s[0] == 'r');
    let e = 1 + digits.len() as int;
    assert(forall|j: int| 1 <= j < e ==> is_dec_digit(#[trigger] s[j])) by {
        assert(forall|j: int| 1 <= j < e ==> s[j] == digits[j - 1]);
    }
    if e < s.len() {
        assert(s[e] == path_text(p)[0]);
        lemma_path_text_first(p);
        assert(!is_dec_digit('.'));
    }
    lemma_digit_run_unique(s, 1, e);
    assert(s.subrange(1, e) =~= digits);
    assert(dec_val(digits) == reg.spec_locator() as nat);
    assert(s.subrange(e, s.len() as int) =~= path_text(p));
    assert(forall|k: int| 0 <= k < p.len() ==> is_valid_ident(#[trigger] p[k])) by {
        match reg {
            Register::Locator(_) => {
            },
            Register::Member(_, path) => {
                assert(forall|k: int|
                    0 <= k < p.len() ==> p[k] == (#[trigger] path@[k])@ && path@[k].wf());
            },
        }
    }
    lemma_parse_path_text(s, e, p);
}

/// A non-empty path's text starts with the dot of its first segment.
pub proof fn lemma_path_text_first(p: Seq<Seq<char>>)
    requires
        p.len() >= 1,
    ensures
        path_text(p).len() >= 1,
        path_text(p)[0] == '.',
{
    assert(path_text(p) == seg_text(p[0]).add(path_text(p.subrange(1, p.len() as int))));
}

/// Parsing a printed path from its starting position yields the path back.
pub proof fn lemma_parse_path_text(s: Seq<char>, i: int, p: Seq<Seq<char>>)
    requires
        0 <= i <= s.len(),
        s.subrange(i, s.len() as int) == path_text(p),
        forall|k: int| 0 <= k < p.len() ==> is_valid_ident(#[trigger] p[k]),
    ensures
        spec_parse_path(s, i) == Some(p),
    decreases p.len(),
{
    if p.len() == 0 {
        assert(path_text(p).len() == 0);
        assert(i == s.len());
    } else {
        let seg = p[0];
        let rest = p.subrange(1, p.len() as int);
        let t = path_text(p);
        assert(t == seg_text(seg).add(path_text(rest)));
        assert(t.len() == 1 + seg.len() + path_text(rest).len());
        assert(s.len() - i == t.len());
        assert(forall|k: int| 0 <= k < t.len() ==> #[trigger] s[i + k] == t[k]) by {
            assert(forall|k: int|
                0 <= k < t.len() ==> s[i + k] == s.subrange(i, s.len() as int)[k]);
        }
        assert(forall|k: int| 1 <= k < 1 + seg.len() ==> #[trigger] t[k] == seg[k - 1]) by {
            assert(forall|k: int|
                1 <= k < 1 + seg.len() ==> t[k] == seg_text(seg)[k] && seg_text(seg)[k] == seg[k
                    - 1]);
        }
        assert(s[i] == t[0]);
        assert(t[0] == '.');
        let e = i + 1 + seg.len() as int;
        assert(is_valid_ident(seg));
        assert(forall|j: int| i + 1 <= j < e ==> is_ident_char(#[trigger] s[j])) by {
            assert(forall|j: int|
                i + 1 <= j < e ==> #[trigger] s[j] == s[i + (j - i)] && s[i + (j - i)] == t[j - i]
                    && t[j - i] == seg[j - i - 1]);
        }
        if e < s.len() {
            assert(s[e] == s[i + (e - i)]);
            assert(t[e - i] == path_text(rest)[e - i - 1 - seg.len() as int]);
            lemma_path_text_first(rest);
            assert(s[e] == '.');
            assert(!is_ident_char('.'));
        }
        lemma_ident_run_unique(s, i + 1, e);
        assert(s.subrange(i + 1, e) =~= seg) by {
            assert(forall|k: int|
                0 <= k < seg.len() ==> #[trigger] s.subrange(i + 1, e)[k] == s[i + (k + 1)] && s[i
                    + (k + 1)] == t[k + 1]);
        }
        assert(s.subrange(e, s.len() as int) =~= path_text(rest)) by {
            assert(forall|k: int|
                0 <= k < path_text(rest).len() ==> #[trigger] s.subrange(e, s.len() as int)[k]
                    == s[i + (k + 1 + seg.len())] && s[i + (k + 1 + seg.len())] == t[k + 1
                    + seg.len()] && t[k + 1 + seg.len()] == path_text(rest)[k]);
        }
        assert(forall|k: int| 0 <= k < rest.len() ==> is_valid_ident(#[trigger] rest[k]));
        lemma_parse_path_text(s, e, rest);
        assert(seq![seg].add(rest) =~= p);
    }
}

/// The locator-only order of registers: the path is never consulted.
pub open spec fn register_order(a: Register, b: Register) -> Ordering {
    if a.spec_locator() < b.spec_locator() {
        Ordering::Less
    } else if a.spec_locator() == b.spec_locator() {
        Ordering::Equal
    } else {
        Ordering::Greater
    }
}

/// The law of register ordering: how two registers compare is a function of
/// their locators alone, whatever their paths hold; two members of the same
/// locator are order-equal even when they are not equal as values.
pub proof fn lemma_register_order_by_locator(a: Register, b: Register)
    ensures
        register_order(a, b) == Ordering::Less <==> a.spec_locator() < b.spec_locator(),
        register_order(a, b) == Ordering::Equal <==> a.spec_locator() == b.spec_locator(),
        register_order(a, b) == Ordering::Greater <==> a.spec_locator() > b.spec_locator(),
{
}

impl PartialEq for Register {
    fn eq(&self, other: &Register) -> (r: bool) {
        match (self, other) {
            (Register::Locator(a), Register::Locator(b)) => a == b,
            (Register::Member(a, p), Register::Member(b, q)) => {
                if a != b {
                    return false;
                }
                let n = p.len();
                if n != q.len() {
                    proof {
                        assert(self.path_view().len() == p@.len());
                        assert(other.path_view().len() == q@.len());
                    }
                    return false;
                }
                let mut i: usize = 0;
                while i < n
                    invariant
                        i <= n,
                        n == p@.len() == q@.len(),
                        self is Member && self->1 == *p,
                        other is Member && other->1 == *q,
                        forall|j: int| 0 <= j < i ==> (#[trigger] p@[j])@ == q@[j]@,
                    decreases n - i,
                {
                    if !p[i].eq_name(&q[i]) {
                        proof {
                            assert(self.path_view()[i as int] == p@[i as int]@);
                            assert(other.path_view()[i as int] == q@[i as int]@);
                        }
                        return false;
                    }
                    i = i + 1;
                }
                proof {
                    assert(path_model(p@) =~= q@.map_values(
                        |id: Identifier| id@,
                    ));
                }
                true
            },
            (_, _) => false,
        }
    }
}

impl vstd::std_specs::cmp::PartialEqSpecImpl for Register {
    open spec fn obeys_eq_spec() -> bool {
        true
    }

    open spec fn eq_spec(&self, other: &Register) -> bool {
        &&& (self is Locator <==> other is Locator)
        &&& self.spec_locator() == other.spec_locator()
        &&& self.path_view() == other.path_view()
    }
}

impl PartialOrd for Register {
    /// Ordering is determined by the register locator; the path is ignored.
    fn partial_cmp(&self, other: &Register) -> (r: Option<Ordering>) {
        let a = self.locator();
        let b = other.locator();
        if a < b {
            Some(Ordering::Less)
        } else if a == b {
            Some(Ordering::Equal)
        } else {
            Some(Ordering::Greater)
        }
    }
}

impl vstd::std_specs::cmp::PartialOrdSpecImpl for Register {
    open spec fn obeys_partial_cmp_spec() -> bool {
        true
    }

    open spec fn partial_cmp_spec(&self, other: &Register) -> Option<Ordering> {
        Some(register_order(*self, *other))
    }
}

} // verus!
