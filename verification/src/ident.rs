//! Interned name tokens: the field names of structs and records and the
//! member segments of register paths. Construction fails on an invalid
//! lexical form.

use vstd::prelude::*;
use crate::num::is_dec_digit;
use crate::strings::{str_to_chars, chars_to_string};

verus! {

/// The longest accepted identifier, in characters.
pub const MAX_IDENT_LEN: usize = 31;

/// A character that may appear in an identifier: a lowercase letter, a
/// decimal digit, or an underscore.
pub open spec fn is_ident_char(c: char) -> bool {
    c == '_' || (97 <= c as u32 <= 122) || is_dec_digit(c)
}

/// A lexically valid identifier: non-empty, at most `MAX_IDENT_LEN`
/// characters, made of identifier characters, and not starting with a digit.
pub open spec fn is_valid_ident(s: Seq<char>) -> bool {
    &&& 1 <= s.len() <= MAX_IDENT_LEN
    &&& (forall|i: int| 0 <= i < s.len() ==> is_ident_char(#[trigger] s[i]))
    &&& !is_dec_digit(s[0])
}

/// Decides whether one character may appear in an identifier.
pub fn ident_char(c: char) -> (r: bool)
    ensures
        r == is_ident_char(c),
{
    let u = c as u32;
    c == '_' || (97 <= u && u <= 122) || (48 <= u && u <= 57)
}

/// An interned name token.
#[derive(Clone, Debug, Eq, Hash)]
pub struct Identifier {
    text: String,
}

/// The model of an identifier path: the sequence of the identifiers' texts.
pub open spec fn path_model(p: Seq<Identifier>) -> Seq<Seq<char>> {
    p.map_values(|id: Identifier| id@)
}

impl View for Identifier {
    type V = Seq<char>;

    closed spec fn view(&self) -> Seq<char> {
        self.text@
    }
}

impl Identifier {
    /// Well-formedness: the token is a lexically valid identifier.
    pub open spec fn wf(self) -> bool {
        is_valid_ident(self@)
    }

    /// Constructs an identifier from its text; fails on an invalid lexical
    /// form, and succeeds exactly on valid ones.
    pub fn from_text(s: &str) -> (r: Option<Identifier>)
        ensures
            r is Some <==> is_valid_ident(s@),
            r is Some ==> r->0@ == s@ && r->0.wf(),
    {
        let cs = str_to_chars(s);
        Identifier::from_chars(&cs)
    }

    /// Constructs an identifier from a character vector; fails on an invalid
    /// lexical form, and succeeds exactly on valid ones.
    pub fn from_chars(cs: &Vec<char>) -> (r: Option<Identifier>)
        ensures
            r is Some <==> is_valid_ident(cs@),
            r is Some ==> r->0@ == cs@ && r->0.wf(),
    {
        let n = cs.len();
        if n == 0 || n > MAX_IDENT_LEN {
            return None;
        }
        if crate::num::char_to_digit(cs[0]).is_some() {
            return None;
        }
        let mut i: usize = 0;
        while i < n
            invariant
                i <= n,
                n == cs@.len(),
                forall|j: int| 0 <= j < i ==> is_ident_char(#[trigger] cs@[j]),
            decreases n - i,
        {
            if !ident_char(cs[i]) {
                return None;
            }
            i = i + 1;
        }
        Some(Identifier { text: chars_to_string(cs) })
    }

    /// The identifier's text.
    pub fn as_str(&self) -> (r: &str)
        ensures
            r@ == self@,
    {
        self.text.as_str()
    }

    /// Copies the identifier, preserving its text.
    pub fn clone_id(&self) -> (r: Identifier)
        ensures
            r@ == self@,
    {
        Identifier { text: self.text.clone() }
    }

    /// Compares two identifiers by name.
    pub fn eq_name(&self, other: &Identifier) -> (r: bool)
        ensures
            r == (self@ == other@),
    {
        self.text == other.text
    }
}

impl PartialEq for Identifier {
    fn eq(&self, other: &Identifier) -> (r: bool) {
        self.text == other.text
    }
}

impl vstd::std_specs::cmp::PartialEqSpecImpl for Identifier {
    open spec fn obeys_eq_spec() -> bool {
        true
    }

    open spec fn eq_spec(&self, other: &Identifier) -> bool {
        self@ == other@
    }
}

} // verus!
