//! The dual-domain register file: two parallel stores from locator to value
//! (native and circuit), the calling context, and the function's declared
//! register types, with `store` and `load` enforcing the single-assignment
//! discipline and the load-time type check — identically in both domains.

use vstd::prelude::*;
use crate::ident::{Identifier, path_model};
use crate::mode::Mode;
use crate::register::Register;
use crate::types::{RegType, RegTyV, valv_matches, value_matches_type};
use crate::value::{Literal, Plaintext, Value, CircuitPlaintext, CircuitValue, LitV, PtV, ValV,
    CPtV, CValV, valv_resolve, cvalv_resolve, cvalv_proj, ptv_find, cptv_find, member_index,
    cmember_index, entry_index, centry_index, pt_view, cpt_view, pt_members_view,
    cpt_members_view, rec_entries_view, crec_entries_view, lemma_pt_members_view,
    lemma_cpt_members_view, lemma_rec_entries_view, lemma_crec_entries_view,
    lemma_resolve_projects};
use crate::VmError;

verus! {

/// An instruction operand: a literal, a register, the executing program's
/// address, or the caller's address.
#[derive(Debug)]
pub enum Operand {
    Literal(Literal),
    Register(Register),
    ProgramID,
    Caller,
}

/// The immutable per-function mapping from registers to their declared types,
/// produced by the out-of-scope program type-checker and consumed read-only.
#[derive(Debug)]
pub struct RegisterTypes {
    pub entries: Vec<(Register, RegType)>,
}

/// Two registers address the same declared slot: same variant, same locator,
/// same path.
pub open spec fn reg_key_eq(a: Register, b: Register) -> bool {
    &&& (a is Locator <==> b is Locator)
    &&& a.spec_locator() == b.spec_locator()
    &&& a.path_view() == b.path_view()
}

/// The index of the first declaration for the register, or -1.
pub open spec fn types_index(ts: Seq<(Register, RegType)>, r: Register, i: int) -> int
    decreases ts.len() - i,
{
    if i < 0 || i >= ts.len() {
        -1
    } else if reg_key_eq(ts[i].0, r) {
        i
    } else {
        types_index(ts, r, i + 1)
    }
}

/// The declared type of the register, if the register is declared.
pub open spec fn spec_types_get(ts: Seq<(Register, RegType)>, r: Register) -> Option<RegType> {
    let i = types_index(ts, r, 0);
    if 0 <= i < ts.len() {
        Some(ts[i].1)
    } else {
        None
    }
}

pub proof fn lemma_types_index_found(ts: Seq<(Register, RegType)>, r: Register, i: int, k: int)
    requires
        0 <= i <= k <= ts.len(),
        k < ts.len() ==> reg_key_eq(ts[k].0, r),
        k == ts.len() ==> true,
        forall|j: int| i <= j < k ==> !reg_key_eq((#[trigger] ts[j]).0, r),
    ensures
        k < ts.len() ==> types_index(ts, r, i) == k,
        k == ts.len() ==> types_index(ts, r, i) == -1,
    decreases k - i,
{
    if i < k {
        lemma_types_index_found(ts, r, i + 1, k);
    }
}

impl RegisterTypes {
    /// An empty declaration table.
    pub fn new() -> (r: RegisterTypes)
        ensures
            r.entries@.len() == 0,
    {
        RegisterTypes { entries: Vec::new() }
    }

    /// Declares a register's type.
    pub fn insert(&mut self, r: Register, ty: RegType)
        ensures
            final(self).entries@ == old(self).entries@.push((r, ty)),
    {
        self.entries.push((r, ty));
    }

    /// Looks up the declared type of a register.
    pub fn get(&self, r: &Register) -> (res: Option<&RegType>)
        ensures
            match res {
                Some(ty) => spec_types_get(self.entries@, *r) == Some(*ty),
                None => spec_types_get(self.entries@, *r) is None,
            },
    {
        let n = self.entries.len();
        let mut i: usize = 0;
        while i < n
            invariant
                i <= n,
                n == self.entries@.len(),
                forall|j: int| 0 <= j < i ==> !reg_key_eq((#[trigger] self.entries@[j]).0, *r),
            decreases n - i,
        {
            if reg_eq(&self.entries[i].0, r) {
                proof {
                    lemma_types_index_found(self.entries@, *r, 0, i as int);
                }
                return Some(&self.entries[i].1);
            }
            i = i + 1;
        }
        proof {
            lemma_types_index_found(self.entries@, *r, 0, n as int);
        }
        None
    }
}

/// Decides whether two registers address the same declared slot.
pub fn reg_eq(a: &Register, b: &Register) -> (r: bool)
    ensures
        r == reg_key_eq(*a, *b),
{
    match (a, b) {
        (Register::Locator(x), Register::Locator(y)) => x == y,
        (Register::Member(x, p), Register::Member(y, q)) => {
            if x != y {
                proof {
                    assert(!reg_key_eq(*a, *b));
                }
                return false;
            }
            let n = p.len();
            if n != q.len() {
                proof {
                    assert(a.path_view().len() == p@.len());
                    assert(b.path_view().len() == q@.len());
                }
                return false;
            }
            let mut i: usize = 0;
            while i < n
                invariant
                    i <= n,
                    n == p@.len() == q@.len(),
                    *a is Member && a->1 == *p,
                    *b is Member && b->1 == *q,
                    a.spec_locator() == b.spec_locator(),
                    forall|j: int| 0 <= j < i ==> (#[trigger] p@[j])@ == q@[j]@,
                decreases n - i,
            {
                if !p[i].eq_name(&q[i]) {
                    proof {
                        assert(a.path_view()[i as int] == p@[i as int]@);
                        assert(b.path_view()[i as int] == q@[i as int]@);
                    }
                    return false;
                }
                i = i + 1;
            }
            proof {
                assert(a.path_view() =~= b.path_view());
            }
            true
        },
        (_, _) => false,
    }
}

// ---------------------------------------------------------------------------
// The associative stores.
// ---------------------------------------------------------------------------

/// The first native value stored under the locator.
pub open spec fn console_get(s: Seq<(u64, Value)>, k: u64) -> Option<Value>
    decreases s,
{
    if s.len() == 0 {
        None
    } else if s[0].0 == k {
        Some(s[0].1)
    } else {
        console_get(s.subrange(1, s.len() as int), k)
    }
}

/// The first circuit value stored under the locator.
pub open spec fn circuit_get(s: Seq<(u64, CircuitValue)>, k: u64) -> Option<CircuitValue>
    decreases s,
{
    if s.len() == 0 {
        None
    } else if s[0].0 == k {
        Some(s[0].1)
    } else {
        circuit_get(s.subrange(1, s.len() as int), k)
    }
}

/// Appending a fresh binding leaves the other keys' lookups unchanged and
/// binds the new key.
pub proof fn lemma_console_get_push(s: Seq<(u64, Value)>, k: u64, v: Value, k2: u64)
    requires
        console_get(s, k) is None,
    ensures
        console_get(s.push((k, v)), k2) == if k2 == k {
            Some(v)
        } else {
            console_get(s, k2)
        },
    decreases s,
{
    let p = s.push((k, v));
    if s.len() == 0 {
        assert(p[0] == (k, v));
        assert(p.subrange(1, 1) =~= Seq::<(u64, Value)>::empty());
        assert(console_get(p, k2) == if p[0].0 == k2 {
            Some(p[0].1)
        } else {
            console_get(p.subrange(1, 1), k2)
        });
        if k2 == k {
            assert(console_get(p, k2) == Some(v));
        } else {
            assert(console_get(p, k2) is None);
            assert(console_get(s, k2) is None);
        }
    } else {
        let t = s.subrange(1, s.len() as int);
        lemma_console_get_push(t, k, v, k2);
        assert(p.subrange(1, s.len() as int + 1) =~= t.push((k, v)));
        assert(p[0] == s[0]);
        assert(console_get(p, k2) == if p[0].0 == k2 {
            Some(p[0].1)
        } else {
            console_get(t.push((k, v)), k2)
        });
        assert(console_get(s, k2) == if s[0].0 == k2 {
            Some(s[0].1)
        } else {
            console_get(t, k2)
        });
    }
}

pub proof fn lemma_circuit_get_push(s: Seq<(u64, CircuitValue)>, k: u64, v: CircuitValue, k2: u64)
    requires
        circuit_get(s, k) is None,
    ensures
        circuit_get(s.push((k, v)), k2) == if k2 == k {
            Some(v)
        } else {
            circuit_get(s, k2)
        },
    decreases s,
{
    let p = s.push((k, v));
    if s.len() == 0 {
        assert(p[0] == (k, v));
        assert(p.subrange(1, 1) =~= Seq::<(u64, CircuitValue)>::empty());
        assert(circuit_get(p, k2) == if p[0].0 == k2 {
            Some(p[0].1)
        } else {
            circuit_get(p.subrange(1, 1), k2)
        });
        if k2 == k {
            assert(circuit_get(p, k2) == Some(v));
        } else {
            assert(circuit_get(p, k2) is None);
            assert(circuit_get(s, k2) is None);
        }
    } else {
        let t = s.subrange(1, s.len() as int);
        lemma_circuit_get_push(t, k, v, k2);
        assert(p.subrange(1, s.len() as int + 1) =~= t.push((k, v)));
        assert(p[0] == s[0]);
        assert(circuit_get(p, k2) == if p[0].0 == k2 {
            Some(p[0].1)
        } else {
            circuit_get(t.push((k, v)), k2)
        });
        assert(circuit_get(s, k2) == if s[0].0 == k2 {
            Some(s[0].1)
        } else {
            circuit_get(t, k2)
        });
    }
}

// ---------------------------------------------------------------------------
// The register file.
// ---------------------------------------------------------------------------

/// One function activation's register file: created at call entry, populated
/// by `store`, drained by `load`, and discarded at return.
pub struct RegisterFile {
    /// The native (concrete) register store.
    pub console_registers: Vec<(u64, Value)>,
    /// The circuit (symbolic) register store.
    pub circuit_registers: Vec<(u64, CircuitValue)>,
    /// The declared register types of the function under execution.
    pub register_types: RegisterTypes,
    /// The address of the executing program.
    pub program_address: String,
    /// The address of the calling context.
    pub caller_address: String,
}

impl RegisterFile {
    /// The two stores agree: every locator is bound in both domains or in
    /// neither, and the circuit value projects to the native value.
    pub open spec fn stores_agree(self) -> bool {
        forall|k: u64|
            match (
                #[trigger] console_get(self.console_registers@, k),
                circuit_get(self.circuit_registers@, k),
            ) {
                (Option::None, Option::None) => true,
                (Option::Some(v), Option::Some(cv)) => cvalv_proj(cv@) == v@,
                (_, _) => false,
            }
    }

    /// A fresh register file for one function activation.
    pub fn new(
        register_types: RegisterTypes,
        program_address: String,
        caller_address: String,
    ) -> (r: RegisterFile)
        ensures
            r.console_registers@.len() == 0,
            r.circuit_registers@.len() == 0,
            r.register_types == register_types,
            r.program_address == program_address,
            r.caller_address == caller_address,
            r.stores_agree(),
    {
        let r = RegisterFile {
            console_registers: Vec::new(),
            circuit_registers: Vec::new(),
            register_types,
            program_address,
            caller_address,
        };
        r
    }

    /// Stores a native value under a locator register. Fails fast with
    /// `DoubleAssignment` if the locator was already written in this
    /// activation; storing into a member register is not a defined primitive.
    pub fn store(&mut self, r: &Register, value: Value) -> (res: Result<(), VmError>)
        requires
            *r is Locator,
        ensures
            match res {
                Ok(()) => console_get(old(self).console_registers@, r.spec_locator()) is None
                    && final(self).console_registers@ == old(self).console_registers@.push(
                    (r.spec_locator(), value),
                ),
                Err(e) => e == VmError::DoubleAssignment && console_get(
                    old(self).console_registers@,
                    r.spec_locator(),
                ) is Some && final(self).console_registers@ == old(self).console_registers@,
            },
            final(self).circuit_registers@ == old(self).circuit_registers@,
            final(self).register_types == old(self).register_types,
            final(self).program_address == old(self).program_address,
            final(self).caller_address == old(self).caller_address,
    {
        let loc = r.locator();
        if self.console_lookup(loc).is_some() {
            return Err(VmError::DoubleAssignment);
        }
        self.console_registers.push((loc, value));
        Ok(())
    }

    /// Stores a circuit value under a locator register, under the same
    /// single-assignment discipline as the native store.
    pub fn store_circuit(&mut self, r: &Register, value: CircuitValue) -> (res: Result<
        (),
        VmError,
    >)
        requires
            *r is Locator,
        ensures
            match res {
                Ok(()) => circuit_get(old(self).circuit_registers@, r.spec_locator()) is None
                    && final(self).circuit_registers@ == old(self).circuit_registers@.push(
                    (r.spec_locator(), value),
                ),
                Err(e) => e == VmError::DoubleAssignment && circuit_get(
                    old(self).circuit_registers@,
                    r.spec_locator(),
                ) is Some && final(self).circuit_registers@ == old(self).circuit_registers@,
            },
            final(self).console_registers@ == old(self).console_registers@,
            final(self).register_types == old(self).register_types,
            final(self).program_address == old(self).program_address,
            final(self).caller_address == old(self).caller_address,
    {
        let loc = r.locator();
        if self.circuit_lookup(loc).is_some() {
            return Err(VmError::DoubleAssignment);
        }
        self.circuit_registers.push((loc, value));
        Ok(())
    }

    /// Looks up the native value stored under a locator.
    pub fn console_lookup(&self, k: u64) -> (res: Option<&Value>)
        ensures
            match res {
                Some(v) => console_get(self.console_registers@, k) == Some(*v),
                None => console_get(self.console_registers@, k) is None,
            },
    {
        let n = self.console_registers.len();
        let mut i: usize = 0;
        proof {
            assert(self.console_registers@.subrange(0, n as int) =~= self.console_registers@);
        }
        while i < n
            invariant
                i <= n,
                n == self.console_registers@.len(),
                console_get(self.console_registers@, k) == console_get(
                    self.console_registers@.subrange(i as int, n as int),
                    k,
                ),
            decreases n - i,
        {
            proof {
                let tail = self.console_registers@.subrange(i as int, n as int);
                assert(tail[0] == self.console_registers@[i as int]);
                assert(tail.subrange(1, tail.len() as int) =~= self.console_registers@.subrange(
                    i as int + 1,
                    n as int,
                ));
            }
            if self.console_registers[i].0 == k {
                return Some(&self.console_registers[i].1);
            }
            i = i + 1;
        }
        proof {
            assert(self.console_registers@.subrange(n as int, n as int) =~= Seq::<
                (u64, Value),
            >::empty());
        }
        None
    }

    /// Looks up the circuit value stored under a locator.
    pub fn circuit_lookup(&self, k: u64) -> (res: Option<&CircuitValue>)
        ensures
            match res {
                Some(v) => circuit_get(self.circuit_registers@, k) == Some(*v),
                None => circuit_get(self.circuit_registers@, k) is None,
            },
    {
        let n = self.circuit_registers.len();
        let mut i: usize = 0;
        proof {
            assert(self.circuit_registers@.subrange(0, n as int) =~= self.circuit_registers@);
        }
        while i < n
            invariant
                i <= n,
                n == self.circuit_registers@.len(),
                circuit_get(self.circuit_registers@, k) == circuit_get(
                    self.circuit_registers@.subrange(i as int, n as int),
                    k,
                ),
            decreases n - i,
        {
            proof {
                let tail = self.circuit_registers@.subrange(i as int, n as int);
                assert(tail[0] == self.circuit_registers@[i as int]);
                assert(tail.subrange(1, tail.len() as int) =~= self.circuit_registers@.subrange(
                    i as int + 1,
                    n as int,
                ));
            }
            if self.circuit_registers[i].0 == k {
                return Some(&self.circuit_registers[i].1);
            }
            i = i + 1;
        }
        proof {
            assert(self.circuit_registers@.subrange(n as int, n as int) =~= Seq::<
                (u64, CircuitValue),
            >::empty());
        }
        None
    }

    /// What loading an operand returns in the native domain, for every input:
    /// a literal loads as itself, the program and caller operands load the
    /// context addresses, and a register operand is resolved against the
    /// store, descended along its member path, and checked against its
    /// declared type.
    pub open spec fn spec_load(self, op: Operand) -> Result<ValV, VmError> {
        match op {
            Operand::Literal(l) => Ok(ValV::Plaintext(PtV::Literal(l@))),
            Operand::ProgramID => Ok(
                ValV::Plaintext(PtV::Literal(LitV::Address(self.program_address@))),
            ),
            Operand::Caller => Ok(
                ValV::Plaintext(PtV::Literal(LitV::Address(self.caller_address@))),
            ),
            Operand::Register(r) => match console_get(self.console_registers@, r.spec_locator()) {
                Option::None => Err(VmError::UndefinedRegister),
                Option::Some(v) => {
                    let resolved = if r is Locator {
                        Ok(v@)
                    } else {
                        match valv_resolve(v@, r.path_view()) {
                            Ok(pt) => Ok(ValV::Plaintext(pt)),
                            Err(e) => Err(e),
                        }
                    };
                    match resolved {
                        Err(e) => Err(e),
                        Ok(val) => match spec_types_get(self.register_types.entries@, r) {
                            Option::None => Err(VmError::UndefinedRegister),
                            Option::Some(ty) => if valv_matches(val, ty@) {
                                Ok(val)
                            } else {
                                Err(VmError::TypeMismatch)
                            },
                        },
                    }
                },
            },
        }
    }

    /// What loading an operand returns in the circuit domain: structurally
    /// identical to the native load, over the circuit store; a literal is
    /// injected as a circuit constant, and the type check runs against the
    /// plain-value projection of the resolved circuit value.
    pub open spec fn spec_load_circuit(self, op: Operand) -> Result<CValV, VmError> {
        match op {
            Operand::Literal(l) => Ok(
                CValV::Plaintext(CPtV::Literal(Mode::Constant, l@)),
            ),
            Operand::ProgramID => Ok(
                CValV::Plaintext(CPtV::Literal(Mode::Constant, LitV::Address(self.program_address@))),
            ),
            Operand::Caller => Ok(
                CValV::Plaintext(CPtV::Literal(Mode::Private, LitV::Address(self.caller_address@))),
            ),
            Operand::Register(r) => match circuit_get(self.circuit_registers@, r.spec_locator()) {
                Option::None => Err(VmError::UndefinedRegister),
                Option::Some(cv) => {
                    let resolved = if r is Locator {
                        Ok(cv@)
                    } else {
                        match cvalv_resolve(cv@, r.path_view()) {
                            Ok(pt) => Ok(CValV::Plaintext(pt)),
                            Err(e) => Err(e),
                        }
                    };
                    match resolved {
                        Err(e) => Err(e),
                        Ok(val) => match spec_types_get(self.register_types.entries@, r) {
                            Option::None => Err(VmError::UndefinedRegister),
                            Option::Some(ty) => if valv_matches(cvalv_proj(val), ty@) {
                                Ok(val)
                            } else {
                                Err(VmError::TypeMismatch)
                            },
                        },
                    }
                },
            },
        }
    }

    /// Loads the value of an operand from the native registers: exactly the
    /// outcome of `spec_load`, for every operand.
    pub fn load(&self, operand: &Operand) -> (res: Result<Value, VmError>)
        ensures
            match res {
                Ok(v) => self.spec_load(*operand) == Ok::<ValV, VmError>(v@),
                Err(e) => self.spec_load(*operand) == Err::<ValV, VmError>(e),
            },
    {
        let r = match operand {
            Operand::Literal(l) => {
                return Ok(Value::Plaintext(Plaintext::Literal(l.clone_lit())));
            },
            Operand::ProgramID => {
                return Ok(
                    Value::Plaintext(Plaintext::Literal(Literal::Address(
                        self.program_address.clone(),
                    ))),
                );
            },
            Operand::Caller => {
                return Ok(
                    Value::Plaintext(Plaintext::Literal(Literal::Address(
                        self.caller_address.clone(),
                    ))),
                );
            },
            Operand::Register(r) => r,
        };
        let stored = match self.console_lookup(r.locator()) {
            Some(v) => v,
            None => {
                return Err(VmError::UndefinedRegister);
            },
        };
        let resolved: Value = match r {
            Register::Locator(_) => stored.clone_value(),
            Register::Member(_, path) => {
                match resolve_value_path(stored, path) {
                    Ok(pt) => Value::Plaintext(pt),
                    Err(e) => {
                        return Err(e);
                    },
                }
            },
        };
        let ty = match self.register_types.get(r) {
            Some(ty) => ty,
            None => {
                return Err(VmError::UndefinedRegister);
            },
        };
        if value_matches_type(&resolved, ty) {
            Ok(resolved)
        } else {
            Err(VmError::TypeMismatch)
        }
    }

    /// Loads the value of an operand from the circuit registers: exactly the
    /// outcome of `spec_load_circuit`, for every operand. The declared-type
    /// check runs on the ejected plain value of the resolved circuit value.
    pub fn load_circuit(&self, operand: &Operand) -> (res: Result<CircuitValue, VmError>)
        ensures
            match res {
                Ok(v) => self.spec_load_circuit(*operand) == Ok::<CValV, VmError>(v@),
                Err(e) => self.spec_load_circuit(*operand) == Err::<CValV, VmError>(e),
            },
    {
        let r = match operand {
            Operand::Literal(l) => {
                return Ok(
                    CircuitValue::Plaintext(CircuitPlaintext::Literal(
                        Mode::Constant,
                        l.clone_lit(),
                    )),
                );
            },
            Operand::ProgramID => {
                return Ok(
                    CircuitValue::Plaintext(CircuitPlaintext::Literal(
                        Mode::Constant,
                        Literal::Address(self.program_address.clone()),
                    )),
                );
            },
            Operand::Caller => {
                return Ok(
                    CircuitValue::Plaintext(CircuitPlaintext::Literal(
                        Mode::Private,
                        Literal::Address(self.caller_address.clone()),
                    )),
                );
            },
            Operand::Register(r) => r,
        };
        let stored = match self.circuit_lookup(r.locator()) {
            Some(v) => v,
            None => {
                return Err(VmError::UndefinedRegister);
            },
        };
        let resolved: CircuitValue = match r {
            Register::Locator(_) => stored.clone_cvalue(),
            Register::Member(_, path) => {
                match resolve_circuit_path(stored, path) {
                    Ok(pt) => CircuitValue::Plaintext(pt),
                    Err(e) => {
                        return Err(e);
                    },
                }
            },
        };
        let ty = match self.register_types.get(r) {
            Some(ty) => ty,
            None => {
                return Err(VmError::UndefinedRegister);
            },
        };
        let ejected = resolved.eject();
        if value_matches_type(&ejected, ty) {
            Ok(resolved)
        } else {
            Err(VmError::TypeMismatch)
        }
    }
}

/// The law of literal loading: a literal operand always loads successfully,
/// as the literal itself wrapped as a plaintext, whatever the register
/// stores hold — the load never consults them. Any two register files with
/// the same calling context load every literal identically.
pub proof fn lemma_load_literal_ignores_store(a: RegisterFile, b: RegisterFile, l: Literal)
    requires
        a.program_address == b.program_address,
        a.caller_address == b.caller_address,
    ensures
        a.spec_load(Operand::Literal(l)) == Ok::<ValV, VmError>(
            ValV::Plaintext(PtV::Literal(l@)),
        ),
        a.spec_load(Operand::Literal(l)) == b.spec_load(Operand::Literal(l)),
{
}

/// The fidelity law of the register file: when the two stores agree, loading
/// any operand in the native domain and in the circuit domain resolves to
/// values that are equal once the circuit value is projected to its plain
/// value, and the two loads pass or fail the whole lookup, path resolution
/// and type check identically, with the same error.
pub proof fn lemma_load_fidelity(rf: RegisterFile, op: Operand)
    requires
        rf.stores_agree(),
    ensures
        match (rf.spec_load(op), rf.spec_load_circuit(op)) {
            (Ok(v), Ok(cv)) => cvalv_proj(cv) == v,
            (Err(e1), Err(e2)) => e1 == e2,
            (_, _) => false,
        },
{
    match op {
        Operand::Literal(_) => {
        },
        Operand::ProgramID => {
        },
        Operand::Caller => {
        },
        Operand::Register(r) => {
            let k = r.spec_locator();
            assert(match (
                console_get(rf.console_registers@, k),
                circuit_get(rf.circuit_registers@, k),
            ) {
                (Option::None, Option::None) => true,
                (Option::Some(v), Option::Some(cv)) => cvalv_proj(cv@) == v@,
                (_, _) => false,
            });
            match (console_get(rf.console_registers@, k), circuit_get(rf.circuit_registers@, k)) {
                (Option::Some(v), Option::Some(cv)) => {
                    if !(r is Locator) {
                        lemma_resolve_projects(cv@, r.path_view());
                    }
                },
                (_, _) => {
                },
            }
        },
    }
}

/// Storing a native value and a circuit value that projects to it, under the
/// same fresh locator, keeps the two stores in agreement.
pub proof fn lemma_store_pair_preserves_agreement(
    pre: RegisterFile,
    post: RegisterFile,
    k: u64,
    v: Value,
    cv: CircuitValue,
)
    requires
        pre.stores_agree(),
        console_get(pre.console_registers@, k) is None,
        circuit_get(pre.circuit_registers@, k) is None,
        cvalv_proj(cv@) == v@,
        post.console_registers@ == pre.console_registers@.push((k, v)),
        post.circuit_registers@ == pre.circuit_registers@.push((k, cv)),
    ensures
        post.stores_agree(),
{
    assert forall|k2: u64|
        match (
            #[trigger] console_get(post.console_registers@, k2),
            circuit_get(post.circuit_registers@, k2),
        ) {
            (Option::None, Option::None) => true,
            (Option::Some(v2), Option::Some(cv2)) => cvalv_proj(cv2@) == v2@,
            (_, _) => false,
        } by {
        lemma_console_get_push(pre.console_registers@, k, v, k2);
        lemma_circuit_get_push(pre.circuit_registers@, k, cv, k2);
    }
}

// ---------------------------------------------------------------------------
// Path resolution over stored values.
// ---------------------------------------------------------------------------

/// The index of the first entry whose name matches, established by a scan.
pub proof fn lemma_member_index_found(
    ms: Seq<(Seq<char>, PtV)>,
    name: Seq<char>,
    i: int,
    k: int,
)
    requires
        0 <= i <= k <= ms.len(),
        k < ms.len() ==> ms[k].0 == name,
        forall|j: int| i <= j < k ==> (#[trigger] ms[j]).0 != name,
    ensures
        k < ms.len() ==> member_index(ms, name, i) == k,
        k == ms.len() ==> member_index(ms, name, i) == -1,
    decreases k - i,
{
    if i < k {
        lemma_member_index_found(ms, name, i + 1, k);
    }
}

pub proof fn lemma_entry_index_found(
    es: Seq<(Seq<char>, crate::value::EntryV)>,
    name: Seq<char>,
    i: int,
    k: int,
)
    requires
        0 <= i <= k <= es.len(),
        k < es.len() ==> es[k].0 == name,
        forall|j: int| i <= j < k ==> (#[trigger] es[j]).0 != name,
    ensures
        k < es.len() ==> entry_index(es, name, i) == k,
        k == es.len() ==> entry_index(es, name, i) == -1,
    decreases k - i,
{
    if i < k {
        lemma_entry_index_found(es, name, i + 1, k);
    }
}

pub proof fn lemma_cmember_index_found(
    ms: Seq<(Seq<char>, CPtV)>,
    name: Seq<char>,
    i: int,
    k: int,
)
    requires
        0 <= i <= k <= ms.len(),
        k < ms.len() ==> ms[k].0 == name,
        forall|j: int| i <= j < k ==> (#[trigger] ms[j]).0 != name,
    ensures
        k < ms.len() ==> cmember_index(ms, name, i) == k,
        k == ms.len() ==> cmember_index(ms, name, i) == -1,
    decreases k - i,
{
    if i < k {
        lemma_cmember_index_found(ms, name, i + 1, k);
    }
}

pub proof fn lemma_centry_index_found(
    es: Seq<(Seq<char>, crate::value::CEntryV)>,
    name: Seq<char>,
    i: int,
    k: int,
)
    requires
        0 <= i <= k <= es.len(),
        k < es.len() ==> es[k].0 == name,
        forall|j: int| i <= j < k ==> (#[trigger] es[j]).0 != name,
    ensures
        k < es.len() ==> centry_index(es, name, i) == k,
        k == es.len() ==> centry_index(es, name, i) == -1,
    decreases k - i,
{
    if i < k {
        lemma_centry_index_found(es, name, i + 1, k);
    }
}

/// Scans struct members for the named member.
fn find_member<'a>(ms: &'a Vec<(Identifier, Plaintext)>, name: &Identifier) -> (res: Option<
    &'a Plaintext,
>)
    ensures
        match res {
            Some(pt) => {
                let i = member_index(pt_members_view(ms@), name@, 0);
                0 <= i < ms@.len() && pt_view(*pt) == pt_members_view(ms@)[i].1
            },
            None => member_index(pt_members_view(ms@), name@, 0) == -1,
        },
{
    proof {
        lemma_pt_members_view(ms@);
    }
    let n = ms.len();
    let mut i: usize = 0;
    while i < n
        invariant
            i <= n,
            n == ms@.len(),
            forall|j: int| 0 <= j < i ==> (#[trigger] pt_members_view(ms@)[j]).0 != name@,
            pt_members_view(ms@).len() == n,
            forall|j: int|
                0 <= j < n ==> #[trigger] pt_members_view(ms@)[j] == (
                    ms@[j].0@,
                    pt_view(ms@[j].1),
                ),
        decreases n - i,
    {
        if ms[i].0.eq_name(name) {
            proof {
                lemma_member_index_found(pt_members_view(ms@), name@, 0, i as int);
            }
            return Some(&ms[i].1);
        }
        i = i + 1;
    }
    proof {
        lemma_member_index_found(pt_members_view(ms@), name@, 0, n as int);
    }
    None
}

/// Scans record entries for the named entry.
fn find_entry<'a>(es: &'a Vec<(Identifier, crate::value::Entry)>, name: &Identifier) -> (res:
    Option<&'a crate::value::Entry>)
    ensures
        match res {
            Some(e) => {
                let i = entry_index(rec_entries_view(es@), name@, 0);
                0 <= i < es@.len() && e@ == rec_entries_view(es@)[i].1
            },
            None => entry_index(rec_entries_view(es@), name@, 0) == -1,
        },
{
    proof {
        lemma_rec_entries_view(es@);
    }
    let n = es.len();
    let mut i: usize = 0;
    while i < n
        invariant
            i <= n,
            n == es@.len(),
            forall|j: int| 0 <= j < i ==> (#[trigger] rec_entries_view(es@)[j]).0 != name@,
            rec_entries_view(es@).len() == n,
            forall|j: int|
                0 <= j < n ==> #[trigger] rec_entries_view(es@)[j] == (es@[j].0@, es@[j].1@),
        decreases n - i,
    {
        if es[i].0.eq_name(name) {
            proof {
                lemma_entry_index_found(rec_entries_view(es@), name@, 0, i as int);
            }
            return Some(&es[i].1);
        }
        i = i + 1;
    }
    proof {
        lemma_entry_index_found(rec_entries_view(es@), name@, 0, n as int);
    }
    None
}

/// Descends through nested struct members of a plaintext along the path,
/// starting at segment `from`.
fn find_plaintext_path<'a>(pt: &'a Plaintext, path: &Vec<Identifier>, from: usize) -> (res: Result<
    &'a Plaintext,
    VmError,
>)
    requires
        from <= path@.len(),
    ensures
        ({
            let pv = path_model(path@).subrange(
                from as int,
                path@.len() as int,
            );
            match res {
                Ok(out) => ptv_find(pt_view(*pt), pv) == Ok::<PtV, VmError>(pt_view(*out)),
                Err(e) => ptv_find(pt_view(*pt), pv) == Err::<PtV, VmError>(e),
            }
        }),
    decreases path@.len() - from,
{
    let ghost pv = path_model(path@).subrange(
        from as int,
        path@.len() as int,
    );
    if from == path.len() {
        proof {
            assert(pv.len() == 0);
        }
        return Ok(pt);
    }
    proof {
        assert(pv[0] == path@[from as int]@);
    }
    match pt {
        Plaintext::Literal(_) => {
            proof {
                assert(pv.len() > 0);
                assert(ptv_find(pt_view(*pt), pv) == Err::<PtV, VmError>(VmError::PathNotFound));
            }
            Err(VmError::PathNotFound)
        },
        Plaintext::Struct(ms) => {
            proof {
                lemma_pt_members_view(ms@);
            }
            match find_member(ms, &path[from]) {
                Some(inner) => {
                    let res = find_plaintext_path(inner, path, from + 1);
                    proof {
                        assert(pv.subrange(1, pv.len() as int) =~= path_model(path@).subrange(from as int + 1, path@.len() as int));
                        let i = member_index(pt_members_view(ms@), pv[0], 0);
                        assert(ptv_find(pt_view(*pt), pv) == ptv_find(
                            pt_members_view(ms@)[i].1,
                            pv.subrange(1, pv.len() as int),
                        ));
                    }
                    res
                },
                None => {
                    proof {
                        assert(ptv_find(pt_view(*pt), pv) == Err::<PtV, VmError>(
                            VmError::PathNotFound,
                        ));
                    }
                    Err(VmError::PathNotFound)
                },
            }
        },
    }
}

/// Resolves a member path against a stored value: for a record, the first
/// segment selects an entry and discards its visibility; the rest of the
/// path descends through nested struct members. Returns the resolved
/// plaintext, copied out of the store.
pub fn resolve_value_path(v: &Value, path: &Vec<Identifier>) -> (res: Result<Plaintext, VmError>)
    ensures
        ({
            let pv = path_model(path@);
            match res {
                Ok(out) => valv_resolve(v@, pv) == Ok::<PtV, VmError>(pt_view(out)),
                Err(e) => valv_resolve(v@, pv) == Err::<PtV, VmError>(e),
            }
        }),
{
    let ghost pv = path_model(path@);
    match v {
        Value::Plaintext(p) => {
            proof {
                assert(pv.subrange(0, pv.len() as int) =~= pv);
            }
            match find_plaintext_path(p, path, 0) {
                Ok(out) => Ok(out.clone_pt()),
                Err(e) => Err(e),
            }
        },
        Value::Record(es) => {
            if path.len() == 0 {
                return Err(VmError::PathNotFound);
            }
            proof {
                assert(pv[0] == path@[0]@);
                lemma_rec_entries_view(es@);
            }
            match find_entry(es, &path[0]) {
                Some(entry) => {
                    let res = find_plaintext_path(&entry.plaintext, path, 1);
                    proof {
                        assert(pv.subrange(1, pv.len() as int) =~= path_model(path@).subrange(1, path@.len() as int));
                    }
                    match res {
                        Ok(out) => Ok(out.clone_pt()),
                        Err(e) => Err(e),
                    }
                },
                None => Err(VmError::PathNotFound),
            }
        },
    }
}

/// Scans circuit struct members for the named member.
fn find_cmember<'a>(ms: &'a Vec<(Identifier, CircuitPlaintext)>, name: &Identifier) -> (res:
    Option<&'a CircuitPlaintext>)
    ensures
        match res {
            Some(pt) => {
                let i = cmember_index(cpt_members_view(ms@), name@, 0);
                0 <= i < ms@.len() && cpt_view(*pt) == cpt_members_view(ms@)[i].1
            },
            None => cmember_index(cpt_members_view(ms@), name@, 0) == -1,
        },
{
    proof {
        lemma_cpt_members_view(ms@);
    }
    let n = ms.len();
    let mut i: usize = 0;
    while i < n
        invariant
            i <= n,
            n == ms@.len(),
            forall|j: int| 0 <= j < i ==> (#[trigger] cpt_members_view(ms@)[j]).0 != name@,
            cpt_members_view(ms@).len() == n,
            forall|j: int|
                0 <= j < n ==> #[trigger] cpt_members_view(ms@)[j] == (
                    ms@[j].0@,
                    cpt_view(ms@[j].1),
                ),
        decreases n - i,
    {
        if ms[i].0.eq_name(name) {
            proof {
                lemma_cmember_index_found(cpt_members_view(ms@), name@, 0, i as int);
            }
            return Some(&ms[i].1);
        }
        i = i + 1;
    }
    proof {
        lemma_cmember_index_found(cpt_members_view(ms@), name@, 0, n as int);
    }
    None
}

/// Scans circuit record entries for the named entry.
fn find_centry<'a>(
    es: &'a Vec<(Identifier, crate::value::CircuitEntry)>,
    name: &Identifier,
) -> (res: Option<&'a crate::value::CircuitEntry>)
    ensures
        match res {
            Some(e) => {
                let i = centry_index(crec_entries_view(es@), name@, 0);
                0 <= i < es@.len() && e@ == crec_entries_view(es@)[i].1
            },
            None => centry_index(crec_entries_view(es@), name@, 0) == -1,
        },
{
    proof {
        lemma_crec_entries_view(es@);
    }
    let n = es.len();
    let mut i: usize = 0;
    while i < n
        invariant
            i <= n,
            n == es@.len(),
            forall|j: int| 0 <= j < i ==> (#[trigger] crec_entries_view(es@)[j]).0 != name@,
            crec_entries_view(es@).len() == n,
            forall|j: int|
                0 <= j < n ==> #[trigger] crec_entries_view(es@)[j] == (es@[j].0@, es@[j].1@),
        decreases n - i,
    {
        if es[i].0.eq_name(name) {
            proof {
                lemma_centry_index_found(crec_entries_view(es@), name@, 0, i as int);
            }
            return Some(&es[i].1);
        }
        i = i + 1;
    }
    proof {
        lemma_centry_index_found(crec_entries_view(es@), name@, 0, n as int);
    }
    None
}

/// Descends through nested circuit struct members along the path.
fn find_circuit_path<'a>(pt: &'a CircuitPlaintext, path: &Vec<Identifier>, from: usize) -> (res:
    Result<&'a CircuitPlaintext, VmError>)
    requires
        from <= path@.len(),
    ensures
        ({
            let pv = path_model(path@).subrange(
                from as int,
                path@.len() as int,
            );
            match res {
                Ok(out) => cptv_find(cpt_view(*pt), pv) == Ok::<CPtV, VmError>(cpt_view(*out)),
                Err(e) => cptv_find(cpt_view(*pt), pv) == Err::<CPtV, VmError>(e),
            }
        }),
    decreases path@.len() - from,
{
    let ghost pv = path_model(path@).subrange(
        from as int,
        path@.len() as int,
    );
    if from == path.len() {
        proof {
            assert(pv.len() == 0);
        }
        return Ok(pt);
    }
    proof {
        assert(pv[0] == path@[from as int]@);
    }
    match pt {
        CircuitPlaintext::Literal(_, _) => {
            proof {
                assert(pv.len() > 0);
                assert(cptv_find(cpt_view(*pt), pv) == Err::<CPtV, VmError>(
                    VmError::PathNotFound,
                ));
            }
            Err(VmError::PathNotFound)
        },
        CircuitPlaintext::Struct(ms) => {
            proof {
                lemma_cpt_members_view(ms@);
            }
            match find_cmember(ms, &path[from]) {
                Some(inner) => {
                    let res = find_circuit_path(inner, path, from + 1);
                    proof {
                        assert(pv.subrange(1, pv.len() as int) =~= path_model(path@).subrange(from as int + 1, path@.len() as int));
                        let i = cmember_index(cpt_members_view(ms@), pv[0], 0);
                        assert(cptv_find(cpt_view(*pt), pv) == cptv_find(
                            cpt_members_view(ms@)[i].1,
                            pv.subrange(1, pv.len() as int),
                        ));
                    }
                    res
                },
                None => {
                    proof {
                        assert(cptv_find(cpt_view(*pt), pv) == Err::<CPtV, VmError>(
                            VmError::PathNotFound,
                        ));
                    }
                    Err(VmError::PathNotFound)
                },
            }
        },
    }
}

/// Resolves a member path against a stored circuit value, exactly as the
/// native resolution does, returning the resolved circuit plaintext.
pub fn resolve_circuit_path(v: &CircuitValue, path: &Vec<Identifier>) -> (res: Result<
    CircuitPlaintext,
    VmError,
>)
    ensures
        ({
            let pv = path_model(path@);
            match res {
                Ok(out) => cvalv_resolve(v@, pv) == Ok::<CPtV, VmError>(cpt_view(out)),
                Err(e) => cvalv_resolve(v@, pv) == Err::<CPtV, VmError>(e),
            }
        }),
{
    let ghost pv = path_model(path@);
    match v {
        CircuitValue::Plaintext(p) => {
            proof {
                assert(pv.subrange(0, pv.len() as int) =~= pv);
            }
            match find_circuit_path(p, path, 0) {
                Ok(out) => Ok(out.clone_cpt()),
                Err(e) => Err(e),
            }
        },
        CircuitValue::Record(es) => {
            if path.len() == 0 {
                return Err(VmError::PathNotFound);
            }
            proof {
                assert(pv[0] == path@[0]@);
                lemma_crec_entries_view(es@);
            }
            match find_centry(es, &path[0]) {
                Some(entry) => {
                    let res = find_circuit_path(&entry.plaintext, path, 1);
                    proof {
                        assert(pv.subrange(1, pv.len() as int) =~= path_model(path@).subrange(1, path@.len() as int));
                    }
                    match res {
                        Ok(out) => Ok(out.clone_cpt()),
                        Err(e) => Err(e),
                    }
                },
                None => Err(VmError::PathNotFound),
            }
        },
    }
}

} // verus!
