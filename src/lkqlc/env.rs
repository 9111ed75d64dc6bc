//! The compilation environment: one scope per function being compiled, each
//! with its register file, its declarations, its upvalues, its string pool and
//! its instructions.
use vstd::prelude::*;
use vstd::string::*;
use vstd::utf8::*;
use crate::errors::{ErrorKind, LKQLError};
use crate::lkqlc::bc::{
    program_bytes, ComplexConstant, Header, KStr, Program, Prototype, FLAG_P_HAS_CHILD,
    MAX_STR_LEN, RET0, RET1,
};

use crate::lkqlc::builtins::{add_builtins, BUILTIN_PRINT};
use crate::lkqlc::ir::{compiled, process_ir, IRArg, IRInstAD, IRInstruction};

verus! {

broadcast use vstd::seq_lib::group_seq_properties;

/// Number of registers of a function.
pub const SLOT_COUNT: usize = 256;

/// Registers from this index on are not given to declared variables: those are
/// spilled to synthesized global names instead.
pub const SPILL_THRESHOLD: usize = 220;

/// Most upvalues a function can have (their count is written in one byte).
pub const MAX_UPVALUES: usize = 255;

/// Most strings a function's pool can hold (their indices are 16-bit).
pub const MAX_STRINGS: usize = 0x10000;

// --- Sequences

/// The index of the first element of `s` that satisfies `p`.
pub open spec fn first_index<A>(s: Seq<A>, p: spec_fn(A) -> bool) -> Option<nat>
    decreases s.len(),
{
    if s.len() == 0 {
        None
    } else {
        match first_index(s.drop_last(), p) {
            Some(i) => Some(i),
            None => if p(s.last()) {
                Some((s.len() - 1) as nat)
            } else {
                None
            },
        }
    }
}

pub proof fn lemma_first_index<A>(s: Seq<A>, p: spec_fn(A) -> bool)
    ensures
        first_index(s, p) matches Some(i) ==> i < s.len() && p(s[i as int]) && forall|j: int|
            0 <= j < i ==> !p(#[trigger] s[j]),
        first_index(s, p) is None ==> forall|j: int| 0 <= j < s.len() ==> !p(#[trigger] s[j]),
    decreases s.len(),
{
    if s.len() > 0 {
        lemma_first_index(s.drop_last(), p);
        assert forall|j: int| 0 <= j < s.len() - 1 implies #[trigger] s[j] == s.drop_last()[j] by {}
    }
}

proof fn lemma_first_index_step<A>(s: Seq<A>, p: spec_fn(A) -> bool, n: int)
    requires
        0 <= n < s.len(),
        first_index(s.take(n), p) is None,
    ensures
        first_index(s.take(n + 1), p) == (if p(s[n]) { Some(n as nat) } else { None }),
{
    assert(s.take(n + 1).drop_last() =~= s.take(n));
}

proof fn lemma_first_index_prefix<A>(s: Seq<A>, p: spec_fn(A) -> bool, n: int)
    requires
        0 <= n <= s.len(),
        first_index(s.take(n), p) is Some,
    ensures
        first_index(s, p) == first_index(s.take(n), p),
    decreases s.len(),
{
    if n < s.len() {
        assert(s.drop_last().take(n) =~= s.take(n));
        lemma_first_index_prefix(s.drop_last(), p, n);
    } else {
        assert(s.take(n) =~= s);
    }
}

proof fn lemma_first_index_none<A>(s: Seq<A>, p: spec_fn(A) -> bool)
    requires
        first_index(s, p) is None,
    ensures
        forall|j: int| 0 <= j < s.len() ==> !p(#[trigger] s[j]),
{
    lemma_first_index(s, p);
}

// --- The model of one scope

/// A variable declaration: its register, or `None` when it was spilled.
pub struct Local {
    pub name: String,
    pub slot: Option<u8>,
}

/// An upvalue of a function and what it refers to: `0xC000 | r` for register
/// `r` of the enclosing function, `m` for upvalue `m` of the enclosing function.
pub struct Upvalue {
    pub name: String,
    pub reference: u16,
}

/// What one scope holds, as plain values.
pub ghost struct ScopeView {
    /// Nesting depth, 0 for the top level.
    pub depth: nat,
    pub arg_count: u8,
    /// Which of the registers are in use.
    pub occupied: Seq<bool>,
    /// Every declaration still in force, in order (inner blocks last).
    pub locals: Seq<(Seq<char>, Option<u8>)>,
    /// The index in `locals` where each open block starts.
    pub block_starts: Seq<nat>,
    /// The string pool; the string with index `k` is `strings[k]`.
    pub strings: Seq<Seq<char>>,
    pub expr_slot: Option<u8>,
    pub return_slot: Option<u8>,
    /// The upvalues; the one with index `k` is `upvalues[k]`.
    pub upvalues: Seq<(Seq<char>, u16)>,
    /// One more than the highest register ever in use.
    pub frame_size: nat,
    /// How many labels were handed out.
    pub labels: nat,
    pub has_child: bool,
    pub ir: Seq<IRInstruction>,
}

/// The synthesized global name of a spilled variable: one underscore per level
/// of depth, then its name.
pub open spec fn spilled_name(name: Seq<char>, depth: nat) -> Seq<char> {
    Seq::new(depth, |i: int| '_') + name
}

/// The declaration that `name` refers to: the latest one.
pub open spec fn find_local(locals: Seq<(Seq<char>, Option<u8>)>, name: Seq<char>) -> Option<Option<u8>>
    decreases locals.len(),
{
    if locals.len() == 0 {
        None
    } else if locals.last().0 == name {
        Some(locals.last().1)
    } else {
        find_local(locals.drop_last(), name)
    }
}

/// The message when a function's string pool is full.
pub open spec fn pool_full_message() -> Seq<char> {
    "the string constant pool is full"@
}

/// The message when no register is free.
pub open spec fn registers_busy_message() -> Seq<char> {
    "all registers are busy"@
}

/// The message when no run of free registers is long enough.
pub open spec fn no_run_message() -> Seq<char> {
    "no run of free registers is long enough"@
}

/// The message when an upvalue table that had to grow is full.
pub open spec fn upvalues_full_message() -> Seq<char> {
    "too many upvalues"@
}

/// `occupied` with the registers of `decls` freed.
pub open spec fn freed(occupied: Seq<bool>, decls: Seq<(Seq<char>, Option<u8>)>) -> Seq<bool>
    decreases decls.len(),
{
    if decls.len() == 0 {
        occupied
    } else {
        let occ = match decls.last().1 {
            Some(r) => occupied.update(r as int, false),
            None => occupied,
        };
        freed(occ, decls.drop_last())
    }
}

pub open spec fn max_nat(a: nat, b: nat) -> nat {
    if a >= b { a } else { b }
}

/// Holds of a free register.
pub open spec fn free_pred() -> spec_fn(bool) -> bool {
    |b: bool| !b
}

/// Holds of the string `s`.
pub open spec fn string_pred(s: Seq<char>) -> spec_fn(Seq<char>) -> bool {
    |x: Seq<char>| x == s
}

/// Holds of the upvalue named `name`.
pub open spec fn upvalue_pred(name: Seq<char>) -> spec_fn((Seq<char>, u16)) -> bool {
    |u: (Seq<char>, u16)| u.0 == name
}

impl ScopeView {
    /// The scope of a function just opened: its arguments hold the first registers.
    pub open spec fn initial(depth: nat, arg_count: u8) -> ScopeView {
        ScopeView {
            depth,
            arg_count,
            occupied: Seq::new(SLOT_COUNT as nat, |i: int| i < arg_count),
            locals: Seq::empty(),
            block_starts: seq![0nat],
            strings: Seq::empty(),
            expr_slot: None,
            return_slot: None,
            upvalues: Seq::empty(),
            frame_size: arg_count as nat,
            labels: 0,
            has_child: false,
            ir: Seq::empty(),
        }
    }

    pub open spec fn wf(self) -> bool {
        &&& self.occupied.len() == SLOT_COUNT
        &&& self.frame_size <= SLOT_COUNT
        &&& forall|j: int| 0 <= j < SLOT_COUNT && #[trigger] self.occupied[j] ==> j < self.frame_size
        &&& self.block_starts.len() >= 1
        &&& self.block_starts[0] == 0
        &&& forall|k: int| 0 <= k < self.block_starts.len() ==> #[trigger] self.block_starts[k] <= self.locals.len()
        &&& forall|k: int, l: int| 0 <= k <= l < self.block_starts.len() ==> #[trigger] self.block_starts[k] <= #[trigger] self.block_starts[l]
        &&& self.strings.len() <= MAX_STRINGS
        &&& forall|k: int, l: int| 0 <= k < l < self.strings.len() ==> #[trigger] self.strings[k] != #[trigger] self.strings[l]
        &&& forall|k: int| 0 <= k < self.strings.len() ==> encode_utf8(#[trigger] self.strings[k]).len() <= MAX_STR_LEN
        &&& self.upvalues.len() <= MAX_UPVALUES
        &&& forall|k: int, l: int| 0 <= k < l < self.upvalues.len() ==> (#[trigger] self.upvalues[k]).0 != (#[trigger] self.upvalues[l]).0
        &&& forall|i: int| 0 <= i < self.locals.len() && (#[trigger] self.locals[i]).1 is Some
            ==> self.occupied[self.locals[i].1.unwrap() as int]
        &&& forall|i: int, j: int| 0 <= i < j < self.locals.len() && (#[trigger] self.locals[i]).1 is Some
            ==> self.locals[i].1 != (#[trigger] self.locals[j]).1
    }

    /// Register `r` holds a declared variable still in force.
    pub open spec fn live_register(self, r: u8) -> bool {
        exists|i: int| 0 <= i < self.locals.len() && (#[trigger] self.locals[i]).1 == Some(r)
    }

    /// The lowest free register.
    pub open spec fn first_free(self) -> Option<nat> {
        first_index(self.occupied, free_pred())
    }

    /// The scope with register `r` taken.
    pub open spec fn occupy(self, r: nat) -> ScopeView {
        ScopeView { occupied: self.occupied.update(r as int, true), frame_size: max_nat(self.frame_size, r + 1), ..self }
    }

    /// Declare `name` in the innermost block: it gets the lowest free register,
    /// unless that one is at or above the spill threshold (or none is free), in
    /// which case it is spilled. The second component is its register.
    pub open spec fn declare(self, name: Seq<char>) -> (ScopeView, Option<u8>) {
        match self.first_free() {
            Some(r) if r < SPILL_THRESHOLD => (
                ScopeView { locals: self.locals.push((name, Some(r as u8))), ..self.occupy(r) },
                Some(r as u8),
            ),
            _ => (ScopeView { locals: self.locals.push((name, None)), ..self }, None),
        }
    }

    pub open spec fn open_block(self) -> ScopeView {
        ScopeView { block_starts: self.block_starts.push(self.locals.len()), ..self }
    }

    /// Leave the innermost block: its declarations go, and their registers are freed.
    pub open spec fn close_block(self) -> ScopeView {
        let start = self.block_starts.last() as int;
        ScopeView {
            occupied: freed(self.occupied, self.locals.subrange(start, self.locals.len() as int)),
            locals: self.locals.take(start),
            block_starts: self.block_starts.drop_last(),
            ..self
        }
    }

    /// The pool index of `s` after interning it, and the scope after: the index
    /// it already has, or else the next one. `None` when the pool is full or the
    /// string too long for the format.
    pub open spec fn intern(self, s: Seq<char>) -> Option<(ScopeView, nat)> {
        match first_index(self.strings, string_pred(s)) {
            Some(k) => Some((self, k)),
            None => if self.strings.len() < MAX_STRINGS && encode_utf8(s).len() <= MAX_STR_LEN {
                Some((ScopeView { strings: self.strings.push(s), ..self }, self.strings.len()))
            } else {
                None
            },
        }
    }

    /// The index of the upvalue named `name`.
    pub open spec fn upvalue_index(self, name: Seq<char>) -> Option<nat> {
        first_index(self.upvalues, upvalue_pred(name))
    }

    pub open spec fn push_instruction(self, inst: IRInstruction) -> ScopeView {
        ScopeView { ir: self.ir.push(inst), ..self }
    }

    /// The instruction that ends the function: return nothing, or the return register.
    pub open spec fn return_instruction(self) -> IRInstruction {
        match self.return_slot {
            None => IRInstruction::AD(IRInstAD { label: None, op_code: RET0, a: IRArg::Slot(0), d: IRArg::Literal(1) }),
            Some(r) => IRInstruction::AD(IRInstAD { label: None, op_code: RET1, a: IRArg::Slot(r), d: IRArg::Literal(2) }),
        }
    }

    /// The scope can be turned into a prototype: its body compiles and its
    /// frame size fits a byte.
    pub open spec fn finalizable(self) -> bool {
        compiled(self.ir.push(self.return_instruction())) is Some && self.frame_size <= 255
    }

    /// `p` is the prototype of this scope.
    pub open spec fn is_prototype(self, p: Prototype) -> bool {
        &&& p.flags == (if self.has_child { FLAG_P_HAS_CHILD } else { 0u8 })
        &&& p.arg_count == self.arg_count
        &&& p.frame_size as nat == self.frame_size
        &&& compiled(self.ir.push(self.return_instruction())) == Some(p.instructions@)
        &&& p.upval_references@ == self.upvalues.map_values(|u: (Seq<char>, u16)| u.1)
        &&& p.complex_constants@.len() == self.strings.len()
        &&& forall|k: int| 0 <= k < self.strings.len() ==>
            (#[trigger] p.complex_constants@[self.strings.len() - 1 - k] matches ComplexConstant::String(ks)
            && ks.content@ == encode_utf8(self.strings[k]))
        &&& p.numeric_constants@.len() == 0
    }
}


// --- One scope

/// The state of one function being compiled.
pub struct LocalEnv {
    depth: usize,
    arg_count: u8,
    occupied_slot: Vec<bool>,
    locals: Vec<Local>,
    block_starts: Vec<usize>,
    strings: Vec<String>,
    expr_result_slot: Option<u8>,
    return_slot: Option<u8>,
    upvalues: Vec<Upvalue>,
    frame_size: u16,
    label_counter: u64,
    has_child: bool,
    ir: Vec<IRInstruction>,
}

impl View for LocalEnv {
    type V = ScopeView;

    closed spec fn view(&self) -> ScopeView {
        ScopeView {
            depth: self.depth as nat,
            arg_count: self.arg_count,
            occupied: self.occupied_slot@,
            locals: self.locals@.map_values(|l: Local| (l.name@, l.slot)),
            block_starts: self.block_starts@.map_values(|b: usize| b as nat),
            strings: self.strings@.map_values(|s: String| s@),
            expr_slot: self.expr_result_slot,
            return_slot: self.return_slot,
            upvalues: self.upvalues@.map_values(|u: Upvalue| (u.name@, u.reference)),
            frame_size: self.frame_size as nat,
            labels: self.label_counter as nat,
            has_child: self.has_child,
            ir: self.ir@,
        }
    }
}

impl LocalEnv {
    fn new(depth: usize, arg_count: u8) -> (r: LocalEnv)
        ensures
            r@ == ScopeView::initial(depth as nat, arg_count),
            r@.wf(),
    {
        let mut occupied_slot: Vec<bool> = Vec::new();
        let mut i: usize = 0;
        while i < SLOT_COUNT
            invariant
                i <= SLOT_COUNT,
                occupied_slot@ == Seq::new(i as nat, |k: int| k < arg_count),
            decreases SLOT_COUNT - i,
        {
            occupied_slot.push(i < arg_count as usize);
            assert(occupied_slot@ =~= Seq::new(i as nat + 1, |k: int| k < arg_count));
            i += 1;
        }
        let mut block_starts: Vec<usize> = Vec::new();
        block_starts.push(0);
        let r = LocalEnv {
            depth,
            arg_count,
            occupied_slot,
            locals: Vec::new(),
            block_starts,
            strings: Vec::new(),
            expr_result_slot: None,
            return_slot: None,
            upvalues: Vec::new(),
            frame_size: arg_count as u16,
            label_counter: 0,
            has_child: false,
            ir: Vec::new(),
        };
        assert(r@.locals =~= Seq::empty());
        assert(r@.strings =~= Seq::empty());
        assert(r@.upvalues =~= Seq::empty());
        assert(r@.block_starts =~= seq![0nat]);
        assert(r@.occupied =~= ScopeView::initial(depth as nat, arg_count).occupied);
        assert(r@ =~= ScopeView::initial(depth as nat, arg_count));
        r
    }

    /// The lowest free register, without taking it.
    fn first_free_slot(&self) -> (r: Option<u8>)
        requires
            self@.wf(),
        ensures
            r matches Some(x) ==> self@.first_free() == Some(x as nat),
            r is None ==> self@.first_free() is None,
    {
        let ghost p = free_pred();
        let mut i: usize = 0;
        while i < SLOT_COUNT
            invariant
                self@.wf(),
                i <= SLOT_COUNT,
                p == free_pred(),
                first_index(self@.occupied.take(i as int), p) is None,
            decreases SLOT_COUNT - i,
        {
            proof {
                lemma_first_index_step(self@.occupied, p, i as int);
            }
            if !self.occupied_slot[i] {
                proof {
                    lemma_first_index_prefix(self@.occupied, p, i as int + 1);
                }
                return Some(i as u8);
            }
            i += 1;
        }
        assert(self@.occupied.take(i as int) =~= self@.occupied);
        None
    }

    /// Take register `slot`.
    fn occupy(&mut self, slot: u8)
        requires
            old(self)@.wf(),
        ensures
            final(self)@ == old(self)@.occupy(slot as nat),
            final(self)@.wf(),
    {
        self.occupied_slot.set(slot as usize, true);
        if slot as u16 >= self.frame_size {
            self.frame_size = slot as u16 + 1;
        }
        assert(self@ =~= old(self)@.occupy(slot as nat));
    }

    /// Free register `slot`.
    fn free_slot(&mut self, slot: u8)
        requires
            old(self)@.wf(),
            !old(self)@.live_register(slot),
        ensures
            final(self)@ == (ScopeView { occupied: old(self)@.occupied.update(slot as int, false), ..old(self)@ }),
            final(self)@.wf(),
    {
        self.occupied_slot.set(slot as usize, false);
        assert(self@ =~= (ScopeView { occupied: old(self)@.occupied.update(slot as int, false), ..old(self)@ }));
    }

    fn open_pseudo_env(&mut self)
        requires
            old(self)@.wf(),
        ensures
            final(self)@ == old(self)@.open_block(),
            final(self)@.wf(),
    {
        let n = self.locals.len();
        self.block_starts.push(n);
        assert(self@.block_starts =~= old(self)@.block_starts.push(n as nat));
        assert(self@ =~= old(self)@.open_block());
    }

    fn close_pseudo_env(&mut self)
        requires
            old(self)@.wf(),
            old(self)@.block_starts.len() >= 2,
        ensures
            final(self)@ == old(self)@.close_block(),
            final(self)@.wf(),
    {
        let ghost orig = self@;
        let start = match self.block_starts.pop() {
            Some(b) => b,
            None => 0,
        };
        assert(self@.block_starts =~= orig.block_starts.drop_last());
        assert(start as nat == orig.block_starts.last());
        while self.locals.len() > start
            invariant
                start <= self.locals@.len() <= orig.locals.len(),
                start as nat == orig.block_starts.last(),
                self@.locals == orig.locals.take(self.locals@.len() as int),
                self@.block_starts == orig.block_starts.drop_last(),
                self@.occupied.len() == SLOT_COUNT,
                forall|j: int| 0 <= j < SLOT_COUNT && #[trigger] self@.occupied[j] ==> orig.occupied[j],
                freed(orig.occupied, orig.locals.subrange(start as int, orig.locals.len() as int))
                    == freed(self@.occupied, orig.locals.subrange(start as int, self.locals@.len() as int)),
                self@ == (ScopeView { occupied: self@.occupied, locals: self@.locals, block_starts: self@.block_starts, ..orig }),
            decreases self.locals@.len(),
        {
            let ghost cur = self@;
            let ghost len = self.locals@.len() as int;
            let ghost pre_vec = self.locals@;
            let popped = self.locals.pop();
            match popped {
                Some(l) => {
                    let ghost sub = orig.locals.subrange(start as int, len);
                    assert(sub.drop_last() =~= orig.locals.subrange(start as int, len - 1));
                    assert(pre_vec[len - 1] == l);
                    assert(cur.locals[len - 1] == (l.name@, l.slot));
                    assert(sub.last() == orig.locals[len - 1]);
                    match l.slot {
                        Some(slot) => {
                            self.occupied_slot.set(slot as usize, false);
                        },
                        None => {},
                    }
                    assert(self@.locals =~= orig.locals.take(len - 1));
                },
                None => {},
            }
        }
        assert(orig.locals.subrange(start as int, start as int) =~= Seq::<(Seq<char>, Option<u8>)>::empty());
        assert(self@ =~= orig.close_block());
        proof {
            lemma_close_block_wf(orig);
        }
    }

    /// Declare `name` in the innermost block.
    fn add_local(&mut self, name: String) -> (r: LocalResult)
        requires
            old(self)@.wf(),
        ensures
            final(self)@ == old(self)@.declare(name@).0,
            final(self)@.wf(),
            old(self)@.declare(name@).1 matches Some(x) ==> r == LocalResult::Slot(x),
            old(self)@.declare(name@).1 is None ==> (r matches LocalResult::Name(n) && n@ == spilled_name(name@, old(self)@.depth)),
    {
        proof {
            lemma_declare_wf(old(self)@, name@);
        }
        let free = self.first_free_slot();
        match free {
            Some(slot) => {
                if (slot as usize) < SPILL_THRESHOLD {
                    self.occupy(slot);
                    let ghost mid = self@;
                    self.locals.push(Local { name, slot: Some(slot) });
                    assert(self@.locals =~= mid.locals.push((name@, Some(slot))));
                    assert(self@ =~= old(self)@.declare(name@).0);
                    return LocalResult::Slot(slot);
                }
            },
            None => {},
        }
        let spilled = name_with_depth(name.as_str(), self.depth);
        let ghost mid = self@;
        self.locals.push(Local { name, slot: None });
        assert(self@.locals =~= mid.locals.push((name@, None)));
        assert(self@ =~= old(self)@.declare(name@).0);
        LocalResult::Name(spilled)
    }

    /// What `name` refers to among the declarations of this scope.
    fn get_local(&self, name: &String) -> (r: LocalResult)
        requires
            self@.wf(),
        ensures
            local_result_is(r, self@, name@),
    {
        let mut i: usize = self.locals.len();
        while i > 0
            invariant
                i <= self@.locals.len(),
                find_local(self@.locals, name@) == find_local(self@.locals.take(i as int), name@),
            decreases i,
        {
            let ghost pre = self@.locals.take(i as int);
            assert(pre.drop_last() =~= self@.locals.take(i as int - 1));
            if self.locals[i - 1].name == *name {
                match self.locals[i - 1].slot {
                    Some(slot) => {
                        return LocalResult::Slot(slot);
                    },
                    None => {
                        return LocalResult::Name(name_with_depth(name.as_str(), self.depth));
                    },
                }
            }
            i -= 1;
        }
        LocalResult::NotFound
    }

    fn add_upvalue(&mut self, reference: u16, name: String) -> (r: u8)
        requires
            old(self)@.wf(),
            old(self)@.upvalues.len() < MAX_UPVALUES,
            old(self)@.upvalue_index(name@) is None,
        ensures
            final(self)@ == (ScopeView { upvalues: old(self)@.upvalues.push((name@, reference)), ..old(self)@ }),
            final(self)@.wf(),
            r as nat == old(self)@.upvalues.len(),
    {
        proof {
            lemma_first_index_none(old(self)@.upvalues, upvalue_pred(name@));
        }
        let index = self.upvalues.len() as u8;
        self.upvalues.push(Upvalue { name, reference });
        assert(self@.upvalues =~= old(self)@.upvalues.push((name@, reference)));
        assert(self@ =~= (ScopeView { upvalues: old(self)@.upvalues.push((name@, reference)), ..old(self)@ }));
        proof {
            let u = self@.upvalues;
            assert forall|k: int, l: int| 0 <= k < l < u.len() implies (#[trigger] u[k]).0 != (#[trigger] u[l]).0 by {
                if l == u.len() - 1 {
                    assert(!upvalue_pred(name@)(old(self)@.upvalues[k]));
                }
            }
        }
        index
    }

    /// The index of the upvalue named `name`, if this scope has one.
    fn get_upvalue(&self, name: &String) -> (r: Option<u8>)
        requires
            self@.wf(),
        ensures
            r matches Some(k) ==> self@.upvalue_index(name@) == Some(k as nat),
            r is None ==> self@.upvalue_index(name@) is None,
    {
        let ghost p = upvalue_pred(name@);
        let mut i: usize = 0;
        while i < self.upvalues.len()
            invariant
                self@.wf(),
                p == upvalue_pred(name@),
                i <= self@.upvalues.len(),
                first_index(self@.upvalues.take(i as int), p) is None,
            decreases self@.upvalues.len() - i,
        {
            proof {
                lemma_first_index_step(self@.upvalues, p, i as int);
            }
            if self.upvalues[i].name == *name {
                proof {
                    lemma_first_index_prefix(self@.upvalues, p, i as int + 1);
                }
                return Some(i as u8);
            }
            i += 1;
        }
        assert(self@.upvalues.take(i as int) =~= self@.upvalues);
        None
    }
}

impl LocalEnv {
    fn new_tmp(&mut self) -> (r: Option<u8>)
        requires
            old(self)@.wf(),
        ensures
            final(self)@.wf(),
            r matches Some(x) ==> old(self)@.first_free() == Some(x as nat) && final(self)@ == old(self)@.occupy(x as nat),
            r is None ==> old(self)@.first_free() is None && final(self)@ == old(self)@,
    {
        match self.first_free_slot() {
            Some(slot) => {
                self.occupy(slot);
                Some(slot)
            },
            None => None,
        }
    }

    /// Take the lowest run of `n` free registers.
    fn new_tmps(&mut self, n: u8) -> (r: Option<Vec<u8>>)
        requires
            old(self)@.wf(),
        ensures
            final(self)@.wf(),
            tmps_taken(old(self)@, final(self)@, n as nat, r),
    {
        if n == 0 {
            return Some(Vec::new());
        }
        let ghost occ = self@.occupied;
        let mut run: usize = 0;
        let mut i: usize = 0;
        while i < SLOT_COUNT
            invariant
                self@.wf(),
                self@ == old(self)@,
                occ == self@.occupied,
                0 < n,
                i <= SLOT_COUNT,
                run <= i,
                run < n,
                forall|j: int| i - run <= j < i ==> !occ[j],
                run < i ==> occ[i - run - 1],
                forall|st: int| 0 <= st && st + n <= i ==> !run_free(occ, st, n as int),
            decreases SLOT_COUNT - i,
        {
            if !self.occupied_slot[i] {
                run += 1;
                if run == n as usize {
                    let start = i + 1 - run;
                    proof {
                        assert forall|st: int| 0 <= st < start implies !run_free(occ, st, n as int) by {}
                    }
                    let mut slots: Vec<u8> = Vec::new();
                    let mut k: usize = 0;
                    assert(occupy_run(old(self)@, start as nat, 0).occupied =~= old(self)@.occupied);
                    while k < run
                        invariant
                            self@.wf(),
                            run == n as usize,
                            start + run <= SLOT_COUNT,
                            occ == old(self)@.occupied,
                            run_free(occ, start as int, n as int),
                            k <= run,
                            slots@ == Seq::new(k as nat, |j: int| (start + j) as u8),
                            self@ == occupy_run(old(self)@, start as nat, k as nat),
                        decreases run - k,
                    {
                        self.occupy((start + k) as u8);
                        slots.push((start + k) as u8);
                        assert(slots@ =~= Seq::new(k as nat + 1, |j: int| (start + j) as u8));
                        assert(self@.occupied =~= occupy_run(old(self)@, start as nat, k as nat + 1).occupied);
                        k += 1;
                    }
                    return Some(slots);
                }
            } else {
                proof {
                    assert forall|st: int| 0 <= st && st + n <= i + 1 implies !run_free(occ, st, n as int) by {
                        if st + n == i + 1 {
                            assert(occ[i as int]);
                        }
                    }
                }
                run = 0;
                i += 1;
                continue;
            }
            proof {
                assert forall|st: int| 0 <= st && st + n <= i + 1 implies !run_free(occ, st, n as int) by {
                    if st + n == i + 1 {
                        assert(occ[i - run]);
                    }
                }
            }
            i += 1;
        }
        None
    }

    fn new_label(&mut self) -> (r: u64)
        requires
            old(self)@.wf(),
            old(self)@.labels < u64::MAX,
        ensures
            final(self)@ == (ScopeView { labels: old(self)@.labels + 1, ..old(self)@ }),
            final(self)@.wf(),
            r as nat == old(self)@.labels + 1,
    {
        self.label_counter = self.label_counter + 1;
        assert(self@ =~= (ScopeView { labels: old(self)@.labels + 1, ..old(self)@ }));
        self.label_counter
    }

    fn add_instruction(&mut self, inst: IRInstruction)
        requires
            old(self)@.wf(),
        ensures
            final(self)@ == old(self)@.push_instruction(inst),
            final(self)@.wf(),
    {
        self.ir.push(inst);
        assert(self@ =~= old(self)@.push_instruction(inst));
    }

    fn add_string_constant(&mut self, string: String) -> (r: Result<u16, LKQLError>)
        requires
            old(self)@.wf(),
        ensures
            final(self)@.wf(),
            interned(old(self)@, final(self)@, string@, r),
    {
        let ghost p = string_pred(string@);
        let mut i: usize = 0;
        while i < self.strings.len()
            invariant
                self@.wf(),
                self@ == old(self)@,
                p == string_pred(string@),
                i <= self@.strings.len(),
                first_index(self@.strings.take(i as int), p) is None,
            decreases self@.strings.len() - i,
        {
            proof {
                lemma_first_index_step(self@.strings, p, i as int);
            }
            if self.strings[i] == string {
                proof {
                    lemma_first_index_prefix(self@.strings, p, i as int + 1);
                }
                return Ok(i as u16);
            }
            i += 1;
        }
        assert(self@.strings.take(i as int) =~= self@.strings);
        proof {
            lemma_first_index_none(self@.strings, p);
        }
        let byte_len = string.as_str().as_bytes().len();
        assert(byte_len == encode_utf8(string@).len());
        if self.strings.len() < MAX_STRINGS && byte_len <= MAX_STR_LEN {
            let index = self.strings.len() as u16;
            self.strings.push(string);
            assert(self@.strings =~= old(self)@.strings.push(string@));
            assert(self@ =~= (ScopeView { strings: old(self)@.strings.push(string@), ..old(self)@ }));
            proof {
                let st = self@.strings;
                assert forall|k: int, l: int| 0 <= k < l < st.len() implies #[trigger] st[k] != #[trigger] st[l] by {
                    if l == st.len() - 1 {
                        assert(!p(old(self)@.strings[k]));
                    }
                }
            }
            Ok(index)
        } else {
            Err(LKQLError::with_kind(ErrorKind::Exhausted, String::from_str("the string constant pool is full")))
        }
    }

    /// Close the function: append its return, resolve and lower its body, and
    /// build its prototype.
    fn finalize(self) -> (r: Result<Prototype, LKQLError>)
        requires
            self@.wf(),
        ensures
            r is Ok <==> self@.finalizable(),
            r matches Ok(p) ==> self@.is_prototype(p) && p.wf(),
            r matches Err(e) ==> e.kind == ErrorKind::Internal || e.kind == ErrorKind::Exhausted,
    {
        let ghost v = self@;
        let ret = match self.return_slot {
            None => IRInstruction::AD(IRInstAD::new(RET0, IRArg::Slot(0), IRArg::Literal(1))),
            Some(slot) => IRInstruction::AD(IRInstAD::new(RET1, IRArg::Slot(slot), IRArg::Literal(2))),
        };
        let mut ir = self.ir;
        ir.push(ret);
        let code = match process_ir(&mut ir) {
            Ok(code) => code,
            Err(e) => {
                return Err(e);
            },
        };
        if self.frame_size > 255 {
            return Err(LKQLError::with_kind(ErrorKind::Exhausted, String::from_str("the frame does not fit a byte")));
        }
        let mut upval_references: Vec<u16> = Vec::new();
        let mut i: usize = 0;
        while i < self.upvalues.len()
            invariant
                v == self@,
                i <= self.upvalues@.len(),
                upval_references@ == v.upvalues.take(i as int).map_values(|u: (Seq<char>, u16)| u.1),
            decreases self.upvalues@.len() - i,
        {
            upval_references.push(self.upvalues[i].reference);
            assert(upval_references@ =~= v.upvalues.take(i as int + 1).map_values(|u: (Seq<char>, u16)| u.1));
            i += 1;
        }
        assert(v.upvalues.take(i as int) =~= v.upvalues);
        let mut complex_constants: Vec<ComplexConstant> = Vec::new();
        let n = self.strings.len();
        let mut p: usize = 0;
        while p < n
            invariant
                v == self@,
                v.wf(),
                n == v.strings.len(),
                p <= n,
                complex_constants@.len() == p,
                forall|q: int| 0 <= q < p ==> (#[trigger] complex_constants@[q] matches ComplexConstant::String(ks)
                    && ks.content@ == encode_utf8(v.strings[n - 1 - q])),
            decreases n - p,
        {
            let s = self.strings[n - 1 - p].clone();
            complex_constants.push(ComplexConstant::String(KStr::new(s)));
            p += 1;
        }
        let proto = Prototype {
            flags: if self.has_child { FLAG_P_HAS_CHILD } else { 0 },
            arg_count: self.arg_count,
            frame_size: self.frame_size as u8,
            instructions: code,
            upval_references,
            complex_constants,
            numeric_constants: Vec::new(),
        };
        proof {
            assert(ret == v.return_instruction());
            assert forall|k: int| 0 <= k < v.strings.len() implies (#[trigger] proto.complex_constants@[v.strings.len() - 1 - k] matches ComplexConstant::String(ks)
                && ks.content@ == encode_utf8(v.strings[k])) by {
                let q = v.strings.len() - 1 - k;
                assert(n - 1 - q == k);
            }
            assert forall|q: int| 0 <= q < proto.complex_constants@.len() implies #[trigger] proto.complex_constants@[q].wf() by {
                assert(encode_utf8(v.strings[n - 1 - q]).len() <= MAX_STR_LEN);
            }
        }
        Ok(proto)
    }
}

/// `after` and `r` are the scope and result of taking `n` consecutive
/// temporaries from `before`: the lowest run of `n` free registers, or
/// nothing when there is no such run.
pub open spec fn tmps_taken(before: ScopeView, after: ScopeView, n: nat, r: Option<Vec<u8>>) -> bool {
    match r {
        Some(v) => {
            &&& v@.len() == n
            &&& n > 0 ==> {
                let start = v@[0] as int;
                &&& run_free(before.occupied, start, n as int)
                &&& forall|st: int| 0 <= st < start ==> !run_free(before.occupied, st, n as int)
                &&& forall|k: int| 0 <= k < n ==> #[trigger] v@[k] as int == start + k
                &&& after == occupy_run(before, start as nat, n)
            }
            &&& n == 0 ==> after == before
        },
        None => {
            &&& forall|st: int| !run_free(before.occupied, st, n as int)
            &&& after == before
        },
    }
}

/// Registers `start` to `start + n - 1` exist and are free.
pub open spec fn run_free(occupied: Seq<bool>, start: int, n: int) -> bool {
    &&& 0 <= start
    &&& start + n <= occupied.len()
    &&& forall|j: int| start <= j < start + n ==> !#[trigger] occupied[j]
}

/// `s` with registers `start` to `start + n - 1` taken.
pub open spec fn occupy_run(s: ScopeView, start: nat, n: nat) -> ScopeView {
    ScopeView {
        occupied: Seq::new(s.occupied.len(), |j: int| s.occupied[j] || (start <= j < start + n)),
        frame_size: if n == 0 { s.frame_size } else { max_nat(s.frame_size, start + n) },
        ..s
    }
}

/// `after` and `r` are the scope and result of interning `s` in `before`.
pub open spec fn interned(before: ScopeView, after: ScopeView, s: Seq<char>, r: Result<u16, LKQLError>) -> bool {
    match before.intern(s) {
        Some((next, k)) => after == next && (r matches Ok(x) && x as nat == k),
        None => after == before && (r matches Err(e) && e.kind == ErrorKind::Exhausted && e.message@ == pool_full_message()),
    }
}

/// What a name refers to in the current function.
pub enum LocalResult {
    /// A register.
    Slot(u8),
    /// The synthesized global name of a spilled variable.
    Name(String),
    NotFound,
}

/// What a name refers to through the enclosing functions.
pub enum UpvalueResult {
    /// An upvalue of the current function.
    Slot(u8),
    /// The synthesized global name of a variable spilled in the enclosing function.
    Name(String),
    NotFound,
}

/// `r` is what `name` refers to in scope `s`.
pub open spec fn local_result_is(r: LocalResult, s: ScopeView, name: Seq<char>) -> bool {
    match find_local(s.locals, name) {
        Some(Some(x)) => r == LocalResult::Slot(x),
        Some(None) => r matches LocalResult::Name(n) && n@ == spilled_name(name, s.depth),
        None => r is NotFound,
    }
}

/// The name under which a variable declared at `depth` is spilled.
pub fn name_with_depth(name: &str, depth: usize) -> (r: String)
    ensures
        r@ == spilled_name(name@, depth as nat),
{
    let mut res = String::new();
    let mut i: usize = 0;
    proof {
        reveal_strlit("_");
    }
    while i < depth
        invariant
            i <= depth,
            res@ == Seq::new(i as nat, |k: int| '_'),
            "_"@ == seq!['_'],
        decreases depth - i,
    {
        res.append("_");
        assert(res@ =~= Seq::new(i as nat + 1, |k: int| '_'));
        i += 1;
    }
    res.append(name);
    res
}


// --- The stack of scopes

/// What a lookup through the enclosing functions found.
pub ghost enum UvOutcome {
    /// An upvalue of the scope the lookup started from.
    Found(u8),
    /// A variable spilled in an enclosing function, under this global name.
    Spilled(Seq<char>),
    Missing,
    /// An upvalue table that had to grow was full.
    Full,
}

/// Give scope `d` a new upvalue `name` with the given reference.
pub open spec fn add_upvalue_at(scopes: Seq<ScopeView>, d: int, name: Seq<char>, reference: u16) -> (Seq<ScopeView>, UvOutcome) {
    if scopes[d].upvalues.len() >= MAX_UPVALUES {
        (scopes, UvOutcome::Full)
    } else {
        (
            scopes.update(d, ScopeView { upvalues: scopes[d].upvalues.push((name, reference)), ..scopes[d] }),
            UvOutcome::Found(scopes[d].upvalues.len() as u8),
        )
    }
}

/// Look `name` up as an upvalue of scope `d` (0 is the innermost): an existing
/// upvalue; else a register of the enclosing function, captured as a new
/// upvalue (`0xC000 | r`); else a spilled variable of the enclosing function;
/// else, recursively, an upvalue of the enclosing function, captured as a new
/// upvalue (`m`). Every level in between gets its own upvalue.
pub open spec fn lookup_upvalue(scopes: Seq<ScopeView>, name: Seq<char>, d: nat) -> (Seq<ScopeView>, UvOutcome)
    decreases scopes.len() - d,
{
    if d >= scopes.len() {
        (scopes, UvOutcome::Missing)
    } else {
        match scopes[d as int].upvalue_index(name) {
            Some(i) => (scopes, UvOutcome::Found(i as u8)),
            None => if d + 1 >= scopes.len() {
                (scopes, UvOutcome::Missing)
            } else {
                match find_local(scopes[d + 1int].locals, name) {
                    Some(Some(r)) => add_upvalue_at(scopes, d as int, name, (0xC000 + r) as u16),
                    Some(None) => (scopes, UvOutcome::Spilled(spilled_name(name, scopes[d + 1int].depth))),
                    None => {
                        let (next, res) = lookup_upvalue(scopes, name, d + 1);
                        match res {
                            UvOutcome::Found(m) => add_upvalue_at(next, d as int, name, m as u16),
                            _ => (next, res),
                        }
                    },
                }
            },
        }
    }
}

/// The outcome that an upvalue lookup result stands for.
pub open spec fn upvalue_outcome(r: Result<UpvalueResult, LKQLError>) -> UvOutcome {
    match r {
        Ok(UpvalueResult::Slot(i)) => UvOutcome::Found(i),
        Ok(UpvalueResult::Name(n)) => UvOutcome::Spilled(n@),
        Ok(UpvalueResult::NotFound) => UvOutcome::Missing,
        Err(_) => UvOutcome::Full,
    }
}

/// The environment of a whole compilation: the scopes of the functions being
/// compiled, the global names, and the program that receives each finished
/// function.
pub struct CompilationEnv {
    bytecode: Program,
    global_var: Vec<String>,
    /// The innermost scope is the last one.
    local_env_stack: Vec<LocalEnv>,
}

impl CompilationEnv {
    /// The open scopes, the innermost first.
    pub closed spec fn scopes(&self) -> Seq<ScopeView> {
        let n = self.local_env_stack@.len();
        Seq::new(n, |d: int| self.local_env_stack@[n - 1 - d]@)
    }

    /// The declared global names.
    pub closed spec fn globals(&self) -> Set<Seq<char>> {
        self.global_var@.map_values(|s: String| s@).to_set()
    }

    /// The finished functions, in the order they were closed.
    pub closed spec fn prototypes(&self) -> Seq<Prototype> {
        self.bytecode.prototypes@
    }

    pub closed spec fn inv(&self) -> bool {
        &&& self.bytecode.wf()
        &&& self.bytecode.header == Header::spec_new()
        &&& forall|k: int| 0 <= k < self.local_env_stack@.len() ==> (#[trigger] self.local_env_stack@[k])@.depth == k
    }

    pub open spec fn wf(&self) -> bool {
        &&& self.inv()
        &&& forall|d: int| 0 <= d < self.scopes().len() ==> (#[trigger] self.scopes()[d]).wf()
        &&& forall|d: int| 0 <= d < self.scopes().len() ==> (#[trigger] self.scopes()[d]).depth == self.scopes().len() - 1 - d
    }

    proof fn lemma_wf_stack(&self)
        requires
            self.wf(),
        ensures
            forall|k: int| 0 <= k < self.local_env_stack@.len() ==> (#[trigger] self.local_env_stack@[k])@.wf(),
    {
        let n = self.local_env_stack@.len();
        assert forall|k: int| 0 <= k < n implies (#[trigger] self.local_env_stack@[k])@.wf() by {
            assert(self.scopes()[n - 1 - k] == self.local_env_stack@[k]@);
        }
    }

    /// Take the innermost scope out of the stack.
    fn take_current(&mut self) -> (r: LocalEnv)
        requires
            old(self).wf(),
            old(self).scopes().len() >= 1,
        ensures
            r@ == old(self).scopes()[0],
            r@.wf(),
            final(self).local_env_stack@ == old(self).local_env_stack@.drop_last(),
            final(self).bytecode == old(self).bytecode,
            final(self).global_var == old(self).global_var,
            final(self).bytecode.wf(),
            final(self).bytecode.header == Header::spec_new(),
            r@.depth == final(self).local_env_stack@.len(),
            forall|k: int| 0 <= k < final(self).local_env_stack@.len() ==> (#[trigger] final(self).local_env_stack@[k])@.wf()
                && final(self).local_env_stack@[k]@.depth == k,
    {
        proof {
            self.lemma_wf_stack();
        }
        match self.local_env_stack.pop() {
            Some(e) => e,
            None => LocalEnv::new(0, 0),
        }
    }

    /// Put back an innermost scope taken by `take_current`.
    fn put_current(&mut self, e: LocalEnv)
        requires
            e@.wf(),
            e@.depth == old(self).local_env_stack@.len(),
            old(self).bytecode.wf(),
            old(self).bytecode.header == Header::spec_new(),
            forall|k: int| 0 <= k < old(self).local_env_stack@.len() ==> (#[trigger] old(self).local_env_stack@[k])@.wf()
                && old(self).local_env_stack@[k]@.depth == k,
        ensures
            final(self).local_env_stack@ == old(self).local_env_stack@.push(e),
            final(self).bytecode == old(self).bytecode,
            final(self).global_var == old(self).global_var,
            final(self).wf(),
            final(self).scopes() == seq![e@] + old(self).scopes(),
    {
        self.local_env_stack.push(e);
        assert(self.scopes() =~= seq![e@] + old(self).scopes());
    }

    /// A fresh environment: one top-level scope, the built-in globals, no function finished.
    pub fn new() -> (r: CompilationEnv)
        ensures
            r.wf(),
            r.scopes() == seq![ScopeView::initial(0, 0)],
            r.globals() == set![BUILTIN_PRINT@],
            r.prototypes().len() == 0,
    {
        let mut stack: Vec<LocalEnv> = Vec::new();
        stack.push(LocalEnv::new(0, 0));
        let mut res = CompilationEnv { bytecode: Program::new(), global_var: Vec::new(), local_env_stack: stack };
        assert(res.scopes() =~= seq![ScopeView::initial(0, 0)]);
        assert(res.globals() =~= Set::empty()) by {
            assert(res.global_var@.map_values(|s: String| s@) =~= Seq::empty());
        }
        add_builtins(&mut res);
        res
    }

    /// The bytes of the program compiled so far.
    pub fn get_bytecode(&self) -> (r: Vec<u8>)
        requires
            self.wf(),
        ensures
            r@ == program_bytes(Header::spec_new(), self.prototypes()),
    {
        self.bytecode.encode()
    }

    /// Open the scope of a new function taking `arg_count` arguments.
    pub fn open_env(&mut self, arg_count: u8)
        requires
            old(self).wf(),
        ensures
            final(self).wf(),
            final(self).scopes() == seq![ScopeView::initial(old(self).scopes().len(), arg_count)] + old(self).scopes(),
            final(self).globals() == old(self).globals(),
            final(self).prototypes() == old(self).prototypes(),
    {
        proof {
            self.lemma_wf_stack();
        }
        let depth = self.local_env_stack.len();
        let e = LocalEnv::new(depth, arg_count);
        self.put_current(e);
    }

    /// Close the innermost scope: its prototype joins the program and the
    /// enclosing scope, if any, is marked as having a child.
    pub fn close_env(&mut self) -> (r: Result<(), LKQLError>)
        requires
            old(self).wf(),
            old(self).scopes().len() >= 1,
        ensures
            final(self).wf(),
            final(self).globals() == old(self).globals(),
            r is Ok <==> old(self).scopes()[0].finalizable(),
            r is Ok ==> {
                &&& final(self).prototypes().len() == old(self).prototypes().len() + 1
                &&& final(self).prototypes().drop_last() == old(self).prototypes()
                &&& old(self).scopes()[0].is_prototype(final(self).prototypes().last())
                &&& final(self).scopes().len() == old(self).scopes().len() - 1
                &&& forall|d: int| 0 <= d < final(self).scopes().len() ==> #[trigger] final(self).scopes()[d]
                    == (if d == 0 { ScopeView { has_child: true, ..old(self).scopes()[1] } } else { old(self).scopes()[d + 1] })
            },
            r matches Err(e) ==> e.kind == ErrorKind::Internal || e.kind == ErrorKind::Exhausted,
    {
        let to_close = self.take_current();
        let proto = match to_close.finalize() {
            Ok(p) => p,
            Err(e) => {
                assert(self.scopes() =~= old(self).scopes().drop_first());
                return Err(e);
            },
        };
        self.bytecode.prototypes.push(proto);
        assert(self.bytecode.prototypes@.drop_last() =~= old(self).bytecode.prototypes@);
        if self.local_env_stack.len() > 0 {
            let mut parent = match self.local_env_stack.pop() {
                Some(e) => e,
                None => LocalEnv::new(0, 0),
            };
            proof {
                assert(old(self).local_env_stack@[old(self).local_env_stack@.len() - 2] == parent);
            }
            parent.has_child = true;
            assert(parent@ =~= ScopeView { has_child: true, ..old(self).scopes()[1] });
            self.local_env_stack.push(parent);
        }
        assert(self.scopes().len() == old(self).scopes().len() - 1);
        assert forall|d: int| 0 <= d < self.scopes().len() implies #[trigger] self.scopes()[d]
            == (if d == 0 { ScopeView { has_child: true, ..old(self).scopes()[1] } } else { old(self).scopes()[d + 1] }) by {
        }
        Ok(())
    }

    /// Open a block inside the current function.
    pub fn open_pseudo_env(&mut self)
        requires
            old(self).wf(),
            old(self).scopes().len() >= 1,
        ensures
            final(self).wf(),
            final(self).globals() == old(self).globals(),
            final(self).prototypes() == old(self).prototypes(),
            final(self).scopes() == old(self).scopes().update(0, old(self).scopes()[0].open_block()),
    {
        let mut e = self.take_current();
        e.open_pseudo_env();
        self.put_current(e);
        assert(self.scopes() =~= old(self).scopes().update(0, old(self).scopes()[0].open_block()));
    }

    /// Close the innermost block of the current function, freeing the registers it declared.
    pub fn close_pseudo_env(&mut self)
        requires
            old(self).wf(),
            old(self).scopes().len() >= 1,
            old(self).scopes()[0].block_starts.len() >= 2,
        ensures
            final(self).wf(),
            final(self).globals() == old(self).globals(),
            final(self).prototypes() == old(self).prototypes(),
            final(self).scopes() == old(self).scopes().update(0, old(self).scopes()[0].close_block()),
    {
        let mut e = self.take_current();
        e.close_pseudo_env();
        self.put_current(e);
        assert(self.scopes() =~= old(self).scopes().update(0, old(self).scopes()[0].close_block()));
    }

    /// Declare a variable in the innermost block of the current function.
    pub fn add_local(&mut self, name: String) -> (r: LocalResult)
        requires
            old(self).wf(),
            old(self).scopes().len() >= 1,
        ensures
            final(self).wf(),
            final(self).globals() == old(self).globals(),
            final(self).prototypes() == old(self).prototypes(),
            final(self).scopes() == old(self).scopes().update(0, old(self).scopes()[0].declare(name@).0),
            old(self).scopes()[0].declare(name@).1 matches Some(x) ==> r == LocalResult::Slot(x),
            old(self).scopes()[0].declare(name@).1 is None ==> (r matches LocalResult::Name(n)
                && n@ == spilled_name(name@, old(self).scopes()[0].depth)),
    {
        let mut e = self.take_current();
        let ghost nm = name@;
        let r = e.add_local(name);
        self.put_current(e);
        assert(self.scopes() =~= old(self).scopes().update(0, old(self).scopes()[0].declare(nm).0));
        r
    }

    /// Take one free register.
    pub fn new_tmp(&mut self) -> (r: Result<u8, LKQLError>)
        requires
            old(self).wf(),
            old(self).scopes().len() >= 1,
        ensures
            final(self).wf(),
            final(self).globals() == old(self).globals(),
            final(self).prototypes() == old(self).prototypes(),
            r matches Ok(x) ==> old(self).scopes()[0].first_free() == Some(x as nat)
                && final(self).scopes() == old(self).scopes().update(0, old(self).scopes()[0].occupy(x as nat)),
            r matches Err(er) ==> old(self).scopes()[0].first_free() is None && er.kind == ErrorKind::Exhausted
                && er.message@ == registers_busy_message()
                && final(self).scopes() == old(self).scopes(),
    {
        let mut e = self.take_current();
        let t = e.new_tmp();
        self.put_current(e);
        assert(self.scopes() =~= old(self).scopes().update(0, e@));
        match t {
            Some(x) => Ok(x),
            None => Err(LKQLError::with_kind(ErrorKind::Exhausted, String::from_str("all registers are busy"))),
        }
    }

    /// Take `n` consecutive free registers: the lowest such run.
    pub fn new_tmps(&mut self, n: u8) -> (r: Result<Vec<u8>, LKQLError>)
        requires
            old(self).wf(),
            old(self).scopes().len() >= 1,
        ensures
            final(self).wf(),
            final(self).globals() == old(self).globals(),
            final(self).prototypes() == old(self).prototypes(),
            final(self).scopes() == old(self).scopes().update(0, final(self).scopes()[0]),
            tmps_taken(old(self).scopes()[0], final(self).scopes()[0], n as nat, match r { Ok(v) => Some(v), Err(_) => None }),
            r matches Err(er) ==> er.kind == ErrorKind::Exhausted && er.message@ == no_run_message(),
    {
        let mut e = self.take_current();
        let t = e.new_tmps(n);
        self.put_current(e);
        assert(self.scopes() =~= old(self).scopes().update(0, e@));
        match t {
            Some(v) => Ok(v),
            None => Err(LKQLError::with_kind(ErrorKind::Exhausted, String::from_str("no run of free registers is long enough"))),
        }
    }

    /// Free a temporary register.
    pub fn free_tmp(&mut self, slot: u8)
        requires
            old(self).wf(),
            old(self).scopes().len() >= 1,
            !old(self).scopes()[0].live_register(slot),
        ensures
            final(self).wf(),
            final(self).globals() == old(self).globals(),
            final(self).prototypes() == old(self).prototypes(),
            final(self).scopes() == old(self).scopes().update(0, ScopeView {
                occupied: old(self).scopes()[0].occupied.update(slot as int, false), ..old(self).scopes()[0] }),
    {
        let mut e = self.take_current();
        e.free_slot(slot);
        self.put_current(e);
        assert(self.scopes() =~= old(self).scopes().update(0, ScopeView { occupied: old(self).scopes()[0].occupied.update(slot as int, false), ..old(self).scopes()[0] }));
    }

    /// A label not yet used in the current function.
    pub fn new_label(&mut self) -> (r: u64)
        requires
            old(self).wf(),
            old(self).scopes().len() >= 1,
            old(self).scopes()[0].labels < u64::MAX,
        ensures
            final(self).wf(),
            final(self).globals() == old(self).globals(),
            final(self).prototypes() == old(self).prototypes(),
            final(self).scopes() == old(self).scopes().update(0, ScopeView { labels: old(self).scopes()[0].labels + 1, ..old(self).scopes()[0] }),
            r as nat == old(self).scopes()[0].labels + 1,
    {
        let mut e = self.take_current();
        let r = e.new_label();
        self.put_current(e);
        assert(self.scopes() =~= old(self).scopes().update(0, ScopeView { labels: old(self).scopes()[0].labels + 1, ..old(self).scopes()[0] }));
        r
    }

    /// Append an instruction to the current function.
    pub fn add_instruction(&mut self, inst: IRInstruction)
        requires
            old(self).wf(),
            old(self).scopes().len() >= 1,
        ensures
            final(self).wf(),
            final(self).globals() == old(self).globals(),
            final(self).prototypes() == old(self).prototypes(),
            final(self).scopes() == old(self).scopes().update(0, old(self).scopes()[0].push_instruction(inst)),
    {
        let mut e = self.take_current();
        e.add_instruction(inst);
        self.put_current(e);
        assert(self.scopes() =~= old(self).scopes().update(0, old(self).scopes()[0].push_instruction(inst)));
    }

    /// The pool index of a string constant of the current function, adding it if it is new.
    pub fn add_string_constant(&mut self, string: String) -> (r: Result<u16, LKQLError>)
        requires
            old(self).wf(),
            old(self).scopes().len() >= 1,
        ensures
            final(self).wf(),
            final(self).globals() == old(self).globals(),
            final(self).prototypes() == old(self).prototypes(),
            final(self).scopes() == old(self).scopes().update(0, final(self).scopes()[0]),
            interned(old(self).scopes()[0], final(self).scopes()[0], string@, r),
    {
        let mut e = self.take_current();
        let r = e.add_string_constant(string);
        self.put_current(e);
        assert(self.scopes() =~= old(self).scopes().update(0, e@));
        r
    }

    /// Set the register where the current expression's value must go.
    pub fn set_expr_slot(&mut self, slot: Option<u8>)
        requires
            old(self).wf(),
            old(self).scopes().len() >= 1,
        ensures
            final(self).wf(),
            final(self).globals() == old(self).globals(),
            final(self).prototypes() == old(self).prototypes(),
            final(self).scopes() == old(self).scopes().update(0, ScopeView { expr_slot: slot, ..old(self).scopes()[0] }),
    {
        let mut e = self.take_current();
        e.expr_result_slot = slot;
        assert(e@ =~= ScopeView { expr_slot: slot, ..old(self).scopes()[0] });
        self.put_current(e);
        assert(self.scopes() =~= old(self).scopes().update(0, ScopeView { expr_slot: slot, ..old(self).scopes()[0] }));
    }

    /// Set the register that the current function returns.
    pub fn set_return_slot(&mut self, slot: Option<u8>)
        requires
            old(self).wf(),
            old(self).scopes().len() >= 1,
        ensures
            final(self).wf(),
            final(self).globals() == old(self).globals(),
            final(self).prototypes() == old(self).prototypes(),
            final(self).scopes() == old(self).scopes().update(0, ScopeView { return_slot: slot, ..old(self).scopes()[0] }),
    {
        let mut e = self.take_current();
        e.return_slot = slot;
        assert(e@ =~= ScopeView { return_slot: slot, ..old(self).scopes()[0] });
        self.put_current(e);
        assert(self.scopes() =~= old(self).scopes().update(0, ScopeView { return_slot: slot, ..old(self).scopes()[0] }));
    }

    /// Free temporary registers.
    pub fn free_tmps(&mut self, slots: Vec<u8>)
        requires
            old(self).wf(),
            old(self).scopes().len() >= 1,
            forall|k: int| 0 <= k < slots@.len() ==> !old(self).scopes()[0].live_register(#[trigger] slots@[k]),
        ensures
            final(self).wf(),
            final(self).globals() == old(self).globals(),
            final(self).prototypes() == old(self).prototypes(),
            final(self).scopes() == old(self).scopes().update(0, ScopeView {
                occupied: Seq::new(SLOT_COUNT as nat, |j: int| old(self).scopes()[0].occupied[j] && !slots@.contains(j as u8)),
                ..old(self).scopes()[0]
            }),
    {
        let ghost s0 = old(self).scopes()[0];
        let mut i: usize = 0;
        assert(Seq::new(SLOT_COUNT as nat, |j: int| s0.occupied[j] && !slots@.take(0).contains(j as u8)) =~= s0.occupied);
        assert(old(self).scopes() =~= old(self).scopes().update(0, s0));
        while i < slots.len()
            invariant
                self.wf(),
                old(self).scopes().len() >= 1,
                s0 == old(self).scopes()[0],
                forall|k: int| 0 <= k < slots@.len() ==> !s0.live_register(#[trigger] slots@[k]),
                self.scopes().len() == old(self).scopes().len(),
                self.globals() == old(self).globals(),
                self.prototypes() == old(self).prototypes(),
                i <= slots@.len(),
                self.scopes() == old(self).scopes().update(0, ScopeView {
                    occupied: Seq::new(SLOT_COUNT as nat, |j: int| s0.occupied[j] && !slots@.take(i as int).contains(j as u8)),
                    ..s0
                }),
            decreases slots@.len() - i,
        {
            let ghost prev = self.scopes()[0];
            assert(!s0.live_register(slots@[i as int]));
            assert(prev.locals == s0.locals);
            self.free_tmp(slots[i]);
            proof {
                assert(self.scopes()[0].occupied == prev.occupied.update(slots@[i as int] as int, false));
                let a = Seq::new(SLOT_COUNT as nat, |j: int| s0.occupied[j] && !slots@.take(i as int + 1).contains(j as u8));
                let t = slots@.take(i as int);
                assert(slots@.take(i as int + 1) =~= t.push(slots@[i as int]));
                assert forall|j: int| 0 <= j < SLOT_COUNT implies #[trigger] a[j] == self.scopes()[0].occupied[j] by {
                    assert(t.push(slots@[i as int]).contains(j as u8) <==> (t.contains(j as u8) || slots@[i as int] == j as u8));
                }
                assert(a =~= self.scopes()[0].occupied);
            }
            i += 1;
        }
        assert(slots@.take(i as int) =~= slots@);
    }

    /// Look `name` up as an upvalue of the current function, capturing it from
    /// the enclosing functions as needed.
    pub fn get_upvalue(&mut self, name: &str) -> (r: Result<UpvalueResult, LKQLError>)
        requires
            old(self).wf(),
            old(self).scopes().len() >= 1,
        ensures
            final(self).wf(),
            final(self).globals() == old(self).globals(),
            final(self).prototypes() == old(self).prototypes(),
            (final(self).scopes(), upvalue_outcome(r)) == lookup_upvalue(old(self).scopes(), name@, 0),
            r matches Err(e) ==> e.kind == ErrorKind::Exhausted && e.message@ == upvalues_full_message(),
    {
        let key = String::from_str(name);
        self.lookup_uv(&key, 0)
    }

    fn lookup_uv(&mut self, name: &String, depth: usize) -> (r: Result<UpvalueResult, LKQLError>)
        requires
            old(self).wf(),
            depth < old(self).scopes().len(),
        ensures
            final(self).wf(),
            final(self).globals() == old(self).globals(),
            final(self).prototypes() == old(self).prototypes(),
            (final(self).scopes(), upvalue_outcome(r)) == lookup_upvalue(old(self).scopes(), name@, depth as nat),
            final(self).scopes().len() == old(self).scopes().len(),
            forall|j: int| 0 <= j < depth ==> #[trigger] final(self).scopes()[j] == old(self).scopes()[j],
            r matches Err(e) ==> e.kind == ErrorKind::Exhausted && e.message@ == upvalues_full_message(),
        decreases self.local_env_stack@.len() - depth,
    {
        proof {
            self.lemma_wf_stack();
        }
        let n = self.local_env_stack.len();
        let k = n - 1 - depth;
        assert(self.scopes()[depth as int] == self.local_env_stack@[k as int]@);
        match self.local_env_stack[k].get_upvalue(name) {
            Some(i) => {
                return Ok(UpvalueResult::Slot(i));
            },
            None => {},
        }
        if depth + 1 >= n {
            return Ok(UpvalueResult::NotFound);
        }
        assert(self.scopes()[depth + 1] == self.local_env_stack@[k - 1]@);
        let reference: u16;
        match self.local_env_stack[k - 1].get_local(name) {
            LocalResult::Slot(slot) => {
                reference = 0xC000 + slot as u16;
            },
            LocalResult::Name(spilled) => {
                return Ok(UpvalueResult::Name(spilled));
            },
            LocalResult::NotFound => {
                let upper = self.lookup_uv(name, depth + 1);
                match upper {
                    Ok(UpvalueResult::Slot(m)) => {
                        reference = m as u16;
                    },
                    _ => {
                        return upper;
                    },
                }
            },
        }
        self.add_upvalue_at(k, reference, name)
    }

    /// Give the scope at stack position `k` a new upvalue.
    fn add_upvalue_at(&mut self, k: usize, reference: u16, name: &String) -> (r: Result<UpvalueResult, LKQLError>)
        requires
            old(self).wf(),
            k < old(self).local_env_stack@.len(),
            old(self).scopes()[old(self).local_env_stack@.len() - 1 - k].upvalue_index(name@) is None,
        ensures
            final(self).wf(),
            final(self).globals() == old(self).globals(),
            final(self).prototypes() == old(self).prototypes(),
            (final(self).scopes(), upvalue_outcome(r)) == add_upvalue_at(
                old(self).scopes(), old(self).local_env_stack@.len() - 1 - k, name@, reference),
            r matches Err(e) ==> e.kind == ErrorKind::Exhausted && e.message@ == upvalues_full_message(),
    {
        proof {
            self.lemma_wf_stack();
        }
        let ghost d = old(self).local_env_stack@.len() - 1 - k;
        assert(self.scopes()[d] == self.local_env_stack@[k as int]@);
        if self.local_env_stack[k].upvalues.len() >= MAX_UPVALUES {
            return Err(LKQLError::with_kind(ErrorKind::Exhausted, String::from_str("too many upvalues")));
        }
        let mut e = self.local_env_stack.remove(k);
        let index = e.add_upvalue(reference, name.clone());
        self.local_env_stack.insert(k, e);
        assert(self.local_env_stack@ =~= old(self).local_env_stack@.update(k as int, e));
        assert(self.scopes() =~= old(self).scopes().update(d, e@));
        assert(self.globals() =~= old(self).globals());
        Ok(UpvalueResult::Slot(index))
    }

    /// The register where the current expression's value must go.
    pub fn get_expr_slot(&self) -> (r: Option<u8>)
        requires
            self.wf(),
            self.scopes().len() >= 1,
        ensures
            r == self.scopes()[0].expr_slot,
    {
        let n = self.local_env_stack.len();
        self.local_env_stack[n - 1].expr_result_slot
    }

    /// The register that the current function returns.
    pub fn get_return_slot(&self) -> (r: Option<u8>)
        requires
            self.wf(),
            self.scopes().len() >= 1,
        ensures
            r == self.scopes()[0].return_slot,
    {
        let n = self.local_env_stack.len();
        self.local_env_stack[n - 1].return_slot
    }

    /// What `name` refers to in the current function.
    pub fn get_local(&self, name: &str) -> (r: LocalResult)
        requires
            self.wf(),
            self.scopes().len() >= 1,
        ensures
            local_result_is(r, self.scopes()[0], name@),
    {
        proof {
            self.lemma_wf_stack();
        }
        let n = self.local_env_stack.len();
        let key = String::from_str(name);
        self.local_env_stack[n - 1].get_local(&key)
    }

    /// Declare a global name.
    pub fn add_global(&mut self, name: String)
        requires
            old(self).wf(),
        ensures
            final(self).wf(),
            final(self).globals() == old(self).globals().insert(name@),
            final(self).scopes() == old(self).scopes(),
            final(self).prototypes() == old(self).prototypes(),
    {
        let ghost nm = name@;
        let ghost f = |s: String| s@;
        self.global_var.push(name);
        assert(self.global_var@.map_values(f) =~= old(self).global_var@.map_values(f).push(nm));
        assert(self.globals() =~= old(self).globals().insert(nm));
        assert(self.scopes() =~= old(self).scopes());
    }

    /// Whether `name` is a declared global.
    pub fn get_global(&self, name: &str) -> (r: bool)
        requires
            self.wf(),
        ensures
            r == self.globals().contains(name@),
    {
        let key = String::from_str(name);
        let ghost view = self.global_var@.map_values(|s: String| s@);
        let mut i: usize = 0;
        while i < self.global_var.len()
            invariant
                view == self.global_var@.map_values(|s: String| s@),
                i <= self.global_var@.len(),
                key@ == name@,
                forall|k: int| 0 <= k < i ==> view[k] != name@,
            decreases self.global_var@.len() - i,
        {
            if self.global_var[i] == key {
                assert(view[i as int] == name@);
                assert(self.globals().contains(name@));
                return true;
            }
            i += 1;
        }
        assert(!view.contains(name@));
        false
    }
}


// --- Laws

/// Interning a string twice in one function gives the same index both times;
/// the pool grows by one entry the first time if the string is new, and not at
/// all the second time.
pub proof fn lemma_intern_twice(s: ScopeView, x: Seq<char>)
    requires
        s.wf(),
        s.intern(x) is Some,
    ensures
        ({
            let (s1, k) = s.intern(x).unwrap();
            &&& s1.intern(x) == Some((s1, k))
            &&& s1.strings[k as int] == x
            &&& s.strings.contains(x) ==> s1 == s
            &&& !s.strings.contains(x) ==> s1.strings == s.strings.push(x) && k == s.strings.len()
        }),
{
    let (s1, k) = s.intern(x).unwrap();
    lemma_first_index(s.strings, string_pred(x));
    if first_index(s.strings, string_pred(x)) is None {
        assert(s1.strings.drop_last() =~= s.strings);
        assert(!s.strings.contains(x));
    } else {
        assert(s.strings[k as int] == x);
    }
}

/// A lookup that finds nothing, or finds a spilled variable, changes no scope.
pub proof fn lemma_lookup_unchanged(scopes: Seq<ScopeView>, name: Seq<char>, d: nat)
    ensures
        lookup_upvalue(scopes, name, d).1 is Missing || lookup_upvalue(scopes, name, d).1 is Spilled
            ==> lookup_upvalue(scopes, name, d).0 == scopes,
    decreases scopes.len() - d,
{
    if d < scopes.len() && scopes[d as int].upvalue_index(name) is None && d + 1 < scopes.len()
        && find_local(scopes[d + 1int].locals, name) is None {
        lemma_lookup_unchanged(scopes, name, d + 1);
    }
}

/// A lookup changes only upvalue tables: every scope keeps its declarations.
pub proof fn lemma_lookup_keeps_locals(scopes: Seq<ScopeView>, name: Seq<char>, d: nat)
    ensures
        lookup_upvalue(scopes, name, d).0.len() == scopes.len(),
        forall|j: int| 0 <= j < scopes.len() ==> (#[trigger] lookup_upvalue(scopes, name, d).0[j]).locals == scopes[j].locals,
    decreases scopes.len() - d,
{
    if d < scopes.len() && scopes[d as int].upvalue_index(name) is None && d + 1 < scopes.len()
        && find_local(scopes[d + 1int].locals, name) is None {
        lemma_lookup_keeps_locals(scopes, name, d + 1);
    }
}

pub proof fn lemma_lookup_keeps_inner(scopes: Seq<ScopeView>, name: Seq<char>, d: nat)
    ensures
        lookup_upvalue(scopes, name, d).0.len() == scopes.len(),
        forall|j: int| 0 <= j < d ==> #[trigger] lookup_upvalue(scopes, name, d).0[j] == scopes[j],
    decreases scopes.len() - d,
{
    if d < scopes.len() && scopes[d as int].upvalue_index(name) is None && d + 1 < scopes.len()
        && find_local(scopes[d + 1int].locals, name) is None {
        lemma_lookup_keeps_inner(scopes, name, d + 1);
    }
}

/// A lookup that found an upvalue leaves that upvalue in the scope it started
/// from, so looking the same name up again gives the same index and changes nothing.
pub proof fn lemma_lookup_again(scopes: Seq<ScopeView>, name: Seq<char>)
    requires
        scopes.len() >= 1,
        lookup_upvalue(scopes, name, 0).1 is Found,
    ensures
        ({
            let (after, res) = lookup_upvalue(scopes, name, 0);
            lookup_upvalue(after, name, 0) == (after, res)
        }),
{
    let (after, res) = lookup_upvalue(scopes, name, 0);
    let i = res->Found_0;
    let p = upvalue_pred(name);
    if scopes[0].upvalue_index(name) is Some {
        assert(after == scopes);
    } else {
        lemma_lookup_keeps_inner(scopes, name, 1);
        let u = scopes[0].upvalues;
        let u1 = after[0].upvalues;
        assert(u1.drop_last() =~= u);
        assert(first_index(u1, p) == Some(u.len()));
    }
}

/// Reading a variable held in a register of the function two levels out, from
/// inside a doubly nested function, captures it once at each level: the
/// intermediate function gets an upvalue referring to the register, the inner
/// function one referring to that upvalue. Reading it again from the inner
/// function gives the same upvalue and adds nothing.
pub proof fn lemma_nested_capture(scopes: Seq<ScopeView>, name: Seq<char>, r: u8)
    requires
        scopes.len() >= 3,
        scopes[0].upvalue_index(name) is None,
        scopes[1].upvalue_index(name) is None,
        find_local(scopes[1].locals, name) is None,
        find_local(scopes[2].locals, name) == Some(Some(r)),
        scopes[0].upvalues.len() < MAX_UPVALUES,
        scopes[1].upvalues.len() < MAX_UPVALUES,
    ensures
        ({
            let (after, res) = lookup_upvalue(scopes, name, 0);
            &&& res == UvOutcome::Found(scopes[0].upvalues.len() as u8)
            &&& after.len() == scopes.len()
            &&& after[1].upvalues == scopes[1].upvalues.push((name, (0xC000 + r) as u16))
            &&& after[0].upvalues == scopes[0].upvalues.push((name, scopes[1].upvalues.len() as u16))
            &&& forall|d: int| 2 <= d < scopes.len() ==> after[d] == scopes[d]
            &&& lookup_upvalue(after, name, 0) == (after, res)
        }),
{
    let (mid, res1) = lookup_upvalue(scopes, name, 1);
    assert(res1 == UvOutcome::Found(scopes[1].upvalues.len() as u8));
    lemma_lookup_again(scopes, name);
}


/// Declare `names` in order in scope `s`: the scope after, and the register
/// each one got (`None` when it was spilled).
pub open spec fn declare_all(s: ScopeView, names: Seq<Seq<char>>) -> (ScopeView, Seq<Option<u8>>)
    decreases names.len(),
{
    if names.len() == 0 {
        (s, Seq::empty())
    } else {
        let (s1, rs) = declare_all(s, names.drop_last());
        let (s2, r) = s1.declare(names.last());
        (s2, rs.push(r))
    }
}

/// A register in `rs`.
pub open spec fn holds_slot(rs: Seq<Option<u8>>, j: int) -> bool {
    exists|i: int| 0 <= i < rs.len() && rs[i] == Some(j as u8)
}

proof fn lemma_declare_all_len(s: ScopeView, names: Seq<Seq<char>>)
    ensures
        declare_all(s, names).1.len() == names.len(),
    decreases names.len(),
{
    if names.len() > 0 {
        lemma_declare_all_len(s, names.drop_last());
    }
}

proof fn lemma_declare_wf(s: ScopeView, name: Seq<char>)
    requires
        s.wf(),
    ensures
        s.declare(name).0.wf(),
{
    lemma_first_index(s.occupied, free_pred());
    let t = s.declare(name).0;
    if let Some(r) = s.first_free() {
        if r < SPILL_THRESHOLD {
            assert(!s.occupied[r as int]);
            assert forall|i: int| 0 <= i < t.locals.len() && (#[trigger] t.locals[i]).1 is Some
                implies t.occupied[t.locals[i].1.unwrap() as int] by {
                if i < s.locals.len() {
                    assert(t.locals[i] == s.locals[i]);
                }
            }
            assert forall|i: int, j: int| 0 <= i < j < t.locals.len() && (#[trigger] t.locals[i]).1 is Some
                implies t.locals[i].1 != (#[trigger] t.locals[j]).1 by {
                assert(t.locals[i] == s.locals[i]);
                if j < s.locals.len() {
                    assert(t.locals[j] == s.locals[j]);
                }
            }
        } else {
            assert forall|i: int, j: int| 0 <= i < j < t.locals.len() && (#[trigger] t.locals[i]).1 is Some
                implies t.locals[i].1 != (#[trigger] t.locals[j]).1 by {
                assert(t.locals[i] == s.locals[i]);
                if j < s.locals.len() {
                    assert(t.locals[j] == s.locals[j]);
                }
            }
        }
    } else {
        assert forall|i: int, j: int| 0 <= i < j < t.locals.len() && (#[trigger] t.locals[i]).1 is Some
            implies t.locals[i].1 != (#[trigger] t.locals[j]).1 by {
            assert(t.locals[i] == s.locals[i]);
            if j < s.locals.len() {
                assert(t.locals[j] == s.locals[j]);
            }
        }
    }
}

proof fn lemma_close_block_wf(s: ScopeView)
    requires
        s.wf(),
        s.block_starts.len() >= 2,
    ensures
        s.close_block().wf(),
{
    let start = s.block_starts.last() as int;
    let popped = s.locals.subrange(start, s.locals.len() as int);
    lemma_freed(s.occupied, popped);
    let t = s.close_block();
    assert(s.block_starts[0] <= s.block_starts[s.block_starts.len() - 1]);
    assert forall|k: int| 0 <= k < t.block_starts.len() implies #[trigger] t.block_starts[k] <= t.locals.len() by {
        assert(s.block_starts[k] <= s.block_starts[s.block_starts.len() - 1]);
    }
    assert forall|k: int, l: int| 0 <= k <= l < t.block_starts.len() implies #[trigger] t.block_starts[k]
        <= #[trigger] t.block_starts[l] by {
        assert(s.block_starts[k] <= s.block_starts[l]);
    }
    assert forall|i: int| 0 <= i < t.locals.len() && (#[trigger] t.locals[i]).1 is Some
        implies t.occupied[t.locals[i].1.unwrap() as int] by {
        let r = t.locals[i].1.unwrap();
        assert(t.locals[i] == s.locals[i]);
        assert forall|k: int| 0 <= k < popped.len() implies popped[k].1 != Some(r) by {
            assert(popped[k] == s.locals[start + k]);
        }
    }
    assert forall|i: int, j: int| 0 <= i < j < t.locals.len() && (#[trigger] t.locals[i]).1 is Some
        implies t.locals[i].1 != (#[trigger] t.locals[j]).1 by {
        assert(t.locals[i] == s.locals[i]);
        assert(t.locals[j] == s.locals[j]);
    }
}

proof fn lemma_declare_all(s: ScopeView, names: Seq<Seq<char>>)
    requires
        s.wf(),
        forall|i: int| 0 <= i < names.len() ==> (#[trigger] declare_all(s, names).1[i]) is Some,
    ensures
        ({
            let (t, rs) = declare_all(s, names);
            &&& rs.len() == names.len()
            &&& t.wf()
            &&& t.locals == s.locals + Seq::new(names.len(), |i: int| (names[i], rs[i]))
            &&& t == (ScopeView { occupied: t.occupied, locals: t.locals, frame_size: t.frame_size, ..s })
            &&& forall|i: int| 0 <= i < names.len() ==> !s.occupied[(#[trigger] rs[i]).unwrap() as int]
            &&& forall|i: int, j: int| 0 <= i < j < names.len() ==> #[trigger] rs[i] != #[trigger] rs[j]
            &&& forall|j: int| 0 <= j < SLOT_COUNT ==> #[trigger] t.occupied[j] == (s.occupied[j] || holds_slot(rs, j))
            &&& t.frame_size >= s.frame_size
            &&& forall|i: int| 0 <= i < names.len() ==> t.frame_size > (#[trigger] rs[i]).unwrap()
            &&& names.len() > 0 ==> s.first_free() == Some(rs[0].unwrap() as nat)
        }),
    decreases names.len(),
{
    if names.len() > 0 {
        let prev = names.drop_last();
        let (s1, rs1) = declare_all(s, prev);
        let (t, rs) = declare_all(s, names);
        lemma_declare_all_len(s, prev);
        assert(rs == rs1.push(s1.declare(names.last()).1));
        assert forall|i: int| 0 <= i < prev.len() implies (#[trigger] declare_all(s, prev).1[i]) is Some by {
            assert(rs[i] == rs1[i]);
        }
        lemma_declare_all(s, prev);
        lemma_declare_wf(s1, names.last());
        lemma_first_index(s1.occupied, free_pred());
        let n = names.len() - 1;
        assert(rs[n] is Some);
        let r = rs[n].unwrap();
        assert(!s1.occupied[r as int]);
        assert(!s.occupied[r as int]);
        assert forall|i: int| 0 <= i < n implies rs1[i] != Some(r) by {
            assert(s1.occupied[rs1[i].unwrap() as int] == (s.occupied[rs1[i].unwrap() as int] || holds_slot(rs1, rs1[i].unwrap() as int)));
        }
        assert forall|j: int| 0 <= j < SLOT_COUNT implies #[trigger] t.occupied[j] == (s.occupied[j] || holds_slot(rs, j)) by {
            if holds_slot(rs, j) {
                let i = choose|i: int| 0 <= i < rs.len() && rs[i] == Some(j as u8);
                if i < n {
                    assert(rs1[i] == Some(j as u8));
                    assert(holds_slot(rs1, j));
                }
            }
            if holds_slot(rs1, j) {
                let i = choose|i: int| 0 <= i < rs1.len() && rs1[i] == Some(j as u8);
                assert(rs[i] == Some(j as u8));
            }
        }
        assert(t.locals =~= s.locals + Seq::new(names.len(), |i: int| (names[i], rs[i])));
        if n > 0 {
            assert(rs[0] == rs1[0]);
        }
    } else {
        assert(s.locals + Seq::new(0, |i: int| (names[i], declare_all(s, names).1[i])) =~= s.locals);
    }
}

proof fn lemma_freed(occupied: Seq<bool>, decls: Seq<(Seq<char>, Option<u8>)>)
    requires
        occupied.len() == SLOT_COUNT,
    ensures
        freed(occupied, decls).len() == SLOT_COUNT,
        forall|j: int| 0 <= j < SLOT_COUNT ==> #[trigger] freed(occupied, decls)[j]
            == (occupied[j] && !(exists|k: int| 0 <= k < decls.len() && decls[k].1 == Some(j as u8))),
    decreases decls.len(),
{
    if decls.len() > 0 {
        let occ = match decls.last().1 {
            Some(r) => occupied.update(r as int, false),
            None => occupied,
        };
        let dl = decls.drop_last();
        lemma_freed(occ, dl);
        assert forall|j: int| 0 <= j < SLOT_COUNT implies #[trigger] freed(occupied, decls)[j]
            == (occupied[j] && !(exists|k: int| 0 <= k < decls.len() && decls[k].1 == Some(j as u8))) by {
            if exists|k: int| 0 <= k < decls.len() && decls[k].1 == Some(j as u8) {
                let k = choose|k: int| 0 <= k < decls.len() && decls[k].1 == Some(j as u8);
                if k < decls.len() - 1 {
                    assert(dl[k].1 == Some(j as u8));
                }
            }
            if exists|k: int| 0 <= k < dl.len() && dl[k].1 == Some(j as u8) {
                let k = choose|k: int| 0 <= k < dl.len() && dl[k].1 == Some(j as u8);
                assert(decls[k].1 == Some(j as u8));
            }
        }
    }
}

/// Variables declared in a block, none of them spilled, get distinct registers
/// that were free before; closing the block frees every one of them again, and
/// the next declaration reuses the first of them without growing the frame.
pub proof fn lemma_block_slots_reused(s: ScopeView, names: Seq<Seq<char>>, x: Seq<char>)
    requires
        s.wf(),
        names.len() > 0,
        forall|i: int| 0 <= i < names.len() ==> (#[trigger] declare_all(s.open_block(), names).1[i]) is Some,
    ensures
        ({
            let (t, rs) = declare_all(s.open_block(), names);
            let after = t.close_block();
            &&& forall|i: int, j: int| 0 <= i < j < names.len() ==> rs[i] != rs[j]
            &&& forall|i: int| 0 <= i < names.len() ==> !s.occupied[rs[i].unwrap() as int]
            &&& after.occupied == s.occupied
            &&& after.locals == s.locals
            &&& after.block_starts == s.block_starts
            &&& after.declare(x).1 == rs[0]
            &&& after.declare(x).0.frame_size == t.frame_size
        }),
{
    let s0 = s.open_block();
    assert(s0.wf()) by {
        assert forall|k: int, l: int| 0 <= k <= l < s0.block_starts.len() implies #[trigger] s0.block_starts[k]
            <= #[trigger] s0.block_starts[l] by {
            if l < s.block_starts.len() {
                assert(s0.block_starts[k] == s.block_starts[k]);
                assert(s0.block_starts[l] == s.block_starts[l]);
            }
        }
    }
    lemma_declare_all(s0, names);
    let (t, rs) = declare_all(s0, names);
    let start = t.block_starts.last() as int;
    assert(start == s.locals.len());
    let popped = t.locals.subrange(start, t.locals.len() as int);
    assert(popped =~= Seq::new(names.len(), |i: int| (names[i], rs[i])));
    lemma_freed(t.occupied, popped);
    let after = t.close_block();
    assert forall|j: int| 0 <= j < SLOT_COUNT implies #[trigger] after.occupied[j] == s.occupied[j] by {
        if holds_slot(rs, j) {
            let i = choose|i: int| 0 <= i < rs.len() && rs[i] == Some(j as u8);
            assert(!s.occupied[rs[i].unwrap() as int]);
            assert(popped[i].1 == Some(j as u8));
        }
        if exists|k: int| 0 <= k < popped.len() && popped[k].1 == Some(j as u8) {
            let k = choose|k: int| 0 <= k < popped.len() && popped[k].1 == Some(j as u8);
            assert(rs[k] == Some(j as u8));
            assert(holds_slot(rs, j));
        }
    }
    assert(after.occupied =~= s.occupied);
    assert(after.locals =~= s.locals);
    assert(after.block_starts =~= s.block_starts);
    assert(after.first_free() == s0.first_free());
    lemma_first_index(s0.occupied, free_pred());
}

/// In any scope, closing a block frees only registers below the frame size,
/// and the frame size stays. So when the lowest free register after closing
/// is one that the block freed, and is below the spill threshold, the next
/// declaration takes it and the frame does not grow.
pub proof fn lemma_close_block_then_declare(t: ScopeView, x: Seq<char>, r: nat)
    requires
        t.wf(),
        t.block_starts.len() >= 2,
        t.occupied[r as int],
        t.close_block().first_free() == Some(r),
        r < SPILL_THRESHOLD,
    ensures
        t.close_block().frame_size == t.frame_size,
        r < t.frame_size,
        t.close_block().declare(x).1 == Some(r as u8),
        t.close_block().declare(x).0.frame_size == t.frame_size,
        forall|j: int| 0 <= j < SLOT_COUNT && t.occupied[j] && !t.close_block().occupied[j] ==> j < t.frame_size,
{
    let start = t.block_starts.last() as int;
    lemma_freed(t.occupied, t.locals.subrange(start, t.locals.len() as int));
    lemma_first_index(t.close_block().occupied, free_pred());
}

/// A variable declared into a register gets one that no variable in force holds.
pub proof fn lemma_declare_fresh_register(s: ScopeView, name: Seq<char>, r: u8)
    requires
        s.wf(),
        s.declare(name).1 == Some(r),
    ensures
        !s.live_register(r),
        s.declare(name).0.live_register(r),
{
    lemma_first_index(s.occupied, free_pred());
    let t = s.declare(name).0;
    assert(t.locals[t.locals.len() - 1].1 == Some(r));
}

} // verus!
