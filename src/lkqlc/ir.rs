//! The intermediate instructions, their operands, jump resolution and lowering
//! to bytecode instructions.
use vstd::prelude::*;
use crate::errors::{ErrorKind, LKQLError};
use crate::lkqlc::bc::{BCInstABC, BCInstAD, BCInstruction, JUMP_BIASING};

verus! {

/// An instruction whose operands are not yet encoded.
#[derive(Debug, Clone, Copy, PartialEq, Eq, Structural)]
pub enum IRInstruction {
    ABC(IRInstABC),
    AD(IRInstAD),
}

impl IRInstruction {
    pub open spec fn label_of(self) -> Option<u64> {
        match self {
            IRInstruction::ABC(i) => i.label,
            IRInstruction::AD(i) => i.label,
        }
    }

    /// The bytecode instruction, when every operand fits its field.
    pub open spec fn spec_lower(self) -> Option<BCInstruction> {
        match self {
            IRInstruction::ABC(i) => {
                match (i.a.spec_as_8(), i.b.spec_as_8(), i.c.spec_as_8()) {
                    (Some(a), Some(b), Some(c)) => Some(
                        BCInstruction::Abc(BCInstABC { op_code: i.op_code, a, b, c }),
                    ),
                    _ => None,
                }
            },
            IRInstruction::AD(i) => {
                match (i.a.spec_as_8(), i.d.spec_as_16()) {
                    (Some(a), Some(d)) => Some(BCInstruction::Ad(BCInstAD { op_code: i.op_code, a, d })),
                    _ => None,
                }
            },
        }
    }

    /// Encode the operands; `None` when one of them does not fit its field.
    pub fn to_bc_instruction(&self) -> (r: Option<BCInstruction>)
        ensures
            r == self.spec_lower(),
    {
        match self {
            IRInstruction::ABC(inst) => {
                match (inst.a.as_8(), inst.b.as_8(), inst.c.as_8()) {
                    (Some(a), Some(b), Some(c)) => Some(BCInstABC::emit(inst.op_code, a, b, c)),
                    _ => None,
                }
            },
            IRInstruction::AD(inst) => {
                match (inst.a.as_8(), inst.d.as_16()) {
                    (Some(a), Some(d)) => Some(BCInstAD::emit(inst.op_code, a, d)),
                    _ => None,
                }
            },
        }
    }
}

/// An `OP A B C` instruction with an optional jump label.
#[derive(Debug, Clone, Copy, PartialEq, Eq, Structural)]
pub struct IRInstABC {
    pub label: Option<u64>,
    pub op_code: u8,
    pub a: IRArg,
    pub b: IRArg,
    pub c: IRArg,
}

impl IRInstABC {
    pub fn new(op_code: u8, a: IRArg, b: IRArg, c: IRArg) -> (r: IRInstABC)
        ensures
            r == (IRInstABC { label: None, op_code, a, b, c }),
    {
        IRInstABC { label: None, op_code, a, b, c }
    }
}

/// An `OP A D` instruction with an optional jump label.
#[derive(Debug, Clone, Copy, PartialEq, Eq, Structural)]
pub struct IRInstAD {
    pub label: Option<u64>,
    pub op_code: u8,
    pub a: IRArg,
    pub d: IRArg,
}

impl IRInstAD {
    pub fn new(op_code: u8, a: IRArg, d: IRArg) -> (r: IRInstAD)
        ensures
            r == (IRInstAD { label: None, op_code, a, d }),
    {
        IRInstAD { label: None, op_code, a, d }
    }
}

/// An operand.
#[derive(Debug, Clone, Copy, PartialEq, Eq, Structural)]
pub enum IRArg {
    /// No operand.
    NoValue,
    Slot(u8),
    Upvalue(u8),
    Literal(u16),
    SignedLiteral(i16),
    Primitive(Primitive),
    /// The operand of a table creation: the log2 of the hash size, then the array size.
    TNewLiteral(u8, u16),
    Num(u16),
    Str(u16),
    Tab(u16),
    Func(u16),
    CData(u16),
    /// A jump to the instruction that carries this label, not yet resolved.
    Jump(u64),
    /// A resolved jump: the biased displacement.
    JumpLiteral(u16),
}

/// `v` if it fits in 8 bits.
pub open spec fn fit_8(v: u16) -> Option<u8> {
    if v <= 0xFF { Some(v as u8) } else { None }
}

impl IRArg {
    /// The operand as an 8-bit field, when it is allowed there and fits.
    pub open spec fn spec_as_8(self) -> Option<u8> {
        match self {
            IRArg::NoValue => Some(0),
            IRArg::Slot(s) => Some(s),
            IRArg::Upvalue(u) => Some(u),
            IRArg::Literal(v) => fit_8(v),
            IRArg::SignedLiteral(_) => None,
            IRArg::Primitive(p) => Some(p.tag()),
            IRArg::TNewLiteral(_, _) => None,
            IRArg::Num(v) => fit_8(v),
            IRArg::Str(v) => fit_8(v),
            IRArg::Tab(v) => fit_8(v),
            IRArg::Func(v) => fit_8(v),
            IRArg::CData(v) => fit_8(v),
            IRArg::Jump(_) => None,
            IRArg::JumpLiteral(_) => None,
        }
    }

    /// The operand as a 16-bit field, when it is allowed there and fits. A
    /// signed literal is written in two's complement; a table creation operand
    /// packs the hash size above eleven bits of array size.
    pub open spec fn spec_as_16(self) -> Option<u16> {
        match self {
            IRArg::NoValue => Some(0),
            IRArg::Slot(s) => Some(s as u16),
            IRArg::Upvalue(u) => Some(u as u16),
            IRArg::Literal(v) => Some(v),
            IRArg::SignedLiteral(v) => Some(
                (if v >= 0 { v as int } else { v + 0x10000 }) as u16,
            ),
            IRArg::Primitive(p) => Some(p.tag() as u16),
            IRArg::TNewLiteral(hash, tab) => if hash < 32 && tab < 0x800 {
                Some((hash * 0x800 + tab) as u16)
            } else {
                None
            },
            IRArg::Num(v) => Some(v),
            IRArg::Str(v) => Some(v),
            IRArg::Tab(v) => Some(v),
            IRArg::Func(v) => Some(v),
            IRArg::CData(v) => Some(v),
            IRArg::Jump(_) => None,
            IRArg::JumpLiteral(v) => Some(v),
        }
    }

    /// Narrow the operand to 8 bits; `None` where that would lose information
    /// or the operand has no 8-bit form.
    pub fn as_8(&self) -> (r: Option<u8>)
        ensures
            r == self.spec_as_8(),
    {
        match self {
            IRArg::NoValue => Some(0),
            IRArg::Slot(slot) => Some(*slot),
            IRArg::Upvalue(uv) => Some(*uv),
            IRArg::Literal(lit) => {
                if *lit > 0xFF {
                    None
                } else {
                    Some(*lit as u8)
                }
            },
            IRArg::SignedLiteral(_) => None,
            IRArg::Primitive(prim) => Some(prim.encode()),
            IRArg::TNewLiteral(_, _) => None,
            IRArg::Num(num) => {
                if *num > 0xFF {
                    None
                } else {
                    Some(*num as u8)
                }
            },
            IRArg::Str(s) => {
                if *s > 0xFF {
                    None
                } else {
                    Some(*s as u8)
                }
            },
            IRArg::Tab(tab) => {
                if *tab > 0xFF {
                    None
                } else {
                    Some(*tab as u8)
                }
            },
            IRArg::Func(func) => {
                if *func > 0xFF {
                    None
                } else {
                    Some(*func as u8)
                }
            },
            IRArg::CData(cdata) => {
                if *cdata > 0xFF {
                    None
                } else {
                    Some(*cdata as u8)
                }
            },
            IRArg::Jump(_) => None,
            IRArg::JumpLiteral(_) => None,
        }
    }

    /// Narrow the operand to 16 bits; `None` where that would lose information
    /// or the operand is an unresolved jump.
    pub fn as_16(&self) -> (r: Option<u16>)
        ensures
            r == self.spec_as_16(),
    {
        match self {
            IRArg::NoValue => Some(0),
            IRArg::Slot(slot) => Some(*slot as u16),
            IRArg::Upvalue(uv) => Some(*uv as u16),
            IRArg::Literal(lit) => Some(*lit),
            IRArg::SignedLiteral(slit) => {
                if *slit >= 0 {
                    Some(*slit as u16)
                } else {
                    Some((*slit as i32 + 0x10000) as u16)
                }
            },
            IRArg::Primitive(prim) => Some(prim.encode() as u16),
            IRArg::TNewLiteral(hash, tab) => {
                if *hash < 32 && *tab < 0x800 {
                    Some(*hash as u16 * 0x800 + *tab)
                } else {
                    None
                }
            },
            IRArg::Num(num) => Some(*num),
            IRArg::Str(s) => Some(*s),
            IRArg::Tab(tab) => Some(*tab),
            IRArg::Func(func) => Some(*func),
            IRArg::CData(cdata) => Some(*cdata),
            IRArg::Jump(_) => None,
            IRArg::JumpLiteral(offset) => Some(*offset),
        }
    }
}

/// Where a value lives: a declared local or a temporary.
#[derive(Debug, Clone, Copy, PartialEq, Eq, Structural)]
pub enum Slot {
    Local(u8),
    Tmp(u8),
}

/// The three primitive values.
#[derive(Debug, Clone, Copy, PartialEq, Eq, Structural)]
pub enum Primitive {
    Nil,
    False,
    True,
}

impl Primitive {
    pub open spec fn tag(self) -> u8 {
        match self {
            Primitive::Nil => 0,
            Primitive::False => 1,
            Primitive::True => 2,
        }
    }

    /// The operand value of the primitive: nil 0, false 1, true 2.
    pub fn encode(&self) -> (r: u8)
        ensures
            r == self.tag(),
    {
        match self {
            Primitive::Nil => 0,
            Primitive::False => 1,
            Primitive::True => 2,
        }
    }
}

// --- Jump resolution and lowering

/// The index of the first instruction that carries `label`.
pub open spec fn label_position(ir: Seq<IRInstruction>, label: u64) -> Option<nat>
    decreases ir.len(),
{
    if ir.len() == 0 {
        None
    } else {
        match label_position(ir.drop_last(), label) {
            Some(p) => Some(p),
            None => if ir.last().label_of() == Some(label) {
                Some((ir.len() - 1) as nat)
            } else {
                None
            },
        }
    }
}

/// The biased displacement of a jump at index `from` to index `target`: the
/// machine continues at `from + 1 + (d - JUMP_BIASING)`.
pub open spec fn displacement(from: int, target: int) -> int {
    target - (from + 1) + JUMP_BIASING
}

/// Instruction `i` with its jump operand, if any, resolved; `None` when the
/// label is missing or the displacement does not fit 16 bits.
pub open spec fn resolve_at(ir: Seq<IRInstruction>, i: int) -> Option<IRInstruction> {
    match ir[i] {
        IRInstruction::AD(ad) => match ad.d {
            IRArg::Jump(label) => match label_position(ir, label) {
                Some(t) => {
                    let off = displacement(i, t as int);
                    if 0 <= off <= 0xFFFF {
                        Some(IRInstruction::AD(IRInstAD { d: IRArg::JumpLiteral(off as u16), ..ad }))
                    } else {
                        None
                    }
                },
                None => None,
            },
            _ => Some(ir[i]),
        },
        _ => Some(ir[i]),
    }
}

/// Every jump of `ir` can be resolved.
pub open spec fn jumps_resolvable(ir: Seq<IRInstruction>) -> bool {
    forall|i: int| 0 <= i < ir.len() ==> #[trigger] resolve_at(ir, i) is Some
}

/// `ir` with every jump resolved.
pub open spec fn resolved(ir: Seq<IRInstruction>) -> Seq<IRInstruction> {
    Seq::new(ir.len(), |i: int| resolve_at(ir, i).unwrap())
}

/// The bytecode of `ir`, when every instruction can be lowered.
pub open spec fn lowered(ir: Seq<IRInstruction>) -> Option<Seq<BCInstruction>> {
    if forall|i: int| 0 <= i < ir.len() ==> #[trigger] ir[i].spec_lower() is Some {
        Some(Seq::new(ir.len(), |i: int| ir[i].spec_lower().unwrap()))
    } else {
        None
    }
}

/// The bytecode of a function body: its jumps resolved, then lowered.
pub open spec fn compiled(ir: Seq<IRInstruction>) -> Option<Seq<BCInstruction>> {
    if jumps_resolvable(ir) {
        lowered(resolved(ir))
    } else {
        None
    }
}

proof fn lemma_label_position_same_labels(a: Seq<IRInstruction>, b: Seq<IRInstruction>, label: u64)
    requires
        a.len() == b.len(),
        forall|k: int| 0 <= k < a.len() ==> #[trigger] a[k].label_of() == b[k].label_of(),
    ensures
        label_position(a, label) == label_position(b, label),
    decreases a.len(),
{
    if a.len() > 0 {
        assert forall|k: int| 0 <= k < a.drop_last().len() implies #[trigger] a.drop_last()[k].label_of()
            == b.drop_last()[k].label_of() by {
            assert(a[k].label_of() == b[k].label_of());
        }
        lemma_label_position_same_labels(a.drop_last(), b.drop_last(), label);
    }
}

proof fn lemma_resolve_keeps_label(ir: Seq<IRInstruction>, i: int)
    requires
        0 <= i < ir.len(),
        resolve_at(ir, i) is Some,
    ensures
        resolve_at(ir, i).unwrap().label_of() == ir[i].label_of(),
{
}

/// Resolving the jumps of a program whose jumps were already resolved changes nothing.
pub proof fn lemma_resolution_idempotent(ir: Seq<IRInstruction>)
    requires
        jumps_resolvable(ir),
    ensures
        jumps_resolvable(resolved(ir)),
        resolved(resolved(ir)) == resolved(ir),
{
    let r = resolved(ir);
    assert forall|i: int| 0 <= i < r.len() implies #[trigger] resolve_at(r, i) == Some(r[i]) by {
        assert(resolve_at(ir, i) is Some);
    }
    assert(resolved(r) =~= r);
}

/// The index of the first instruction carrying `label`.
pub fn get_label_position(ir: &Vec<IRInstruction>, label: u64) -> (r: Option<usize>)
    ensures
        r matches Some(p) ==> label_position(ir@, label) == Some(p as nat),
        r is None ==> label_position(ir@, label) is None,
{
    let mut i: usize = 0;
    while i < ir.len()
        invariant
            i <= ir@.len(),
            label_position(ir@.take(i as int), label) is None,
        decreases ir@.len() - i,
    {
        let found = match &ir[i] {
            IRInstruction::ABC(abc_inst) => abc_inst.label == Some(label),
            IRInstruction::AD(ad_inst) => ad_inst.label == Some(label),
        };
        assert(ir@.take(i as int + 1).drop_last() =~= ir@.take(i as int));
        if found {
            proof {
                lemma_label_position_prefix(ir@, label, i as int + 1);
            }
            return Some(i);
        }
        i += 1;
    }
    assert(ir@.take(i as int) =~= ir@);
    None
}

proof fn lemma_label_position_prefix(ir: Seq<IRInstruction>, label: u64, n: int)
    requires
        0 <= n <= ir.len(),
        label_position(ir.take(n), label) is Some,
    ensures
        label_position(ir, label) == label_position(ir.take(n), label),
    decreases ir.len(),
{
    if n < ir.len() {
        assert(ir.drop_last().take(n) =~= ir.take(n));
        lemma_label_position_prefix(ir.drop_last(), label, n);
    } else {
        assert(ir.take(n) =~= ir);
    }
}

/// The displacement from index `from` to index `target`, when it fits 16 bits.
fn jump_offset(from: usize, target: usize) -> (r: Option<u16>)
    requires
        from < usize::MAX,
    ensures
        r matches Some(d) ==> d as int == displacement(from as int, target as int),
        r is None <==> !(0 <= displacement(from as int, target as int) <= 0xFFFF),
{
    let next = from + 1;
    if target >= next {
        let diff = target - next;
        if diff <= 0x7FFF {
            Some(JUMP_BIASING + diff as u16)
        } else {
            None
        }
    } else {
        let diff = next - target;
        if diff <= 0x8000 {
            Some(JUMP_BIASING - diff as u16)
        } else {
            None
        }
    }
}

/// Replace every jump to a label by its biased displacement.
pub fn process_jumps(ir: &mut Vec<IRInstruction>) -> (r: Result<(), LKQLError>)
    ensures
        r is Ok <==> jumps_resolvable(old(ir)@),
        r is Ok ==> final(ir)@ == resolved(old(ir)@),
        r matches Err(e) ==> e.kind == ErrorKind::Internal,
{
    let ghost orig = ir@;
    let mut i: usize = 0;
    while i < ir.len()
        invariant
            orig == old(ir)@,
            ir@.len() == orig.len(),
            i <= orig.len(),
            forall|k: int| 0 <= k < i ==> #[trigger] resolve_at(orig, k) == Some(ir@[k]),
            forall|k: int| i <= k < orig.len() ==> #[trigger] ir@[k] == orig[k],
        decreases orig.len() - i,
    {
        proof {
            assert forall|k: int| 0 <= k < orig.len() implies #[trigger] orig[k].label_of()
                == ir@[k].label_of() by {
                if k < i {
                    lemma_resolve_keeps_label(orig, k);
                }
            }
        }
        let current = ir[i];
        match current {
            IRInstruction::AD(ad_inst) => {
                match ad_inst.d {
                    IRArg::Jump(label) => {
                        let target = get_label_position(ir, label);
                        proof {
                            lemma_label_position_same_labels(orig, ir@, label);
                        }
                        match target {
                            Some(target_pos) => {
                                match jump_offset(i, target_pos) {
                                    Some(offset) => {
                                        let to_change = IRInstAD { d: IRArg::JumpLiteral(offset), ..ad_inst };
                                        ir.set(i, IRInstruction::AD(to_change));
                                    },
                                    None => {
                                        assert(resolve_at(orig, i as int) is None);
                                assert(!jumps_resolvable(orig));
                                        return Err(internal_error("jump too long"));
                                    },
                                }
                            },
                            None => {
                                assert(resolve_at(orig, i as int) is None);
                                assert(!jumps_resolvable(orig));
                                return Err(internal_error("jump to a missing label"));
                            },
                        }
                    },
                    _ => {},
                }
            },
            _ => {},
        }
        i += 1;
    }
    proof {
        assert(resolved(orig) =~= ir@);
    }
    Ok(())
}

fn internal_error(message: &str) -> (r: LKQLError)
    ensures
        r.kind == ErrorKind::Internal,
{
    LKQLError::with_kind(ErrorKind::Internal, String::from_str(message))
}

/// Resolve the jumps of a function body, then lower it to bytecode.
pub fn process_ir(ir: &mut Vec<IRInstruction>) -> (r: Result<Vec<BCInstruction>, LKQLError>)
    ensures
        r matches Ok(v) ==> compiled(old(ir)@) == Some(v@),
        r is Ok ==> final(ir)@ == resolved(old(ir)@),
        r matches Err(e) ==> compiled(old(ir)@) is None && e.kind == ErrorKind::Internal,
{
    match process_jumps(ir) {
        Err(e) => {
            return Err(e);
        },
        Ok(_) => {},
    }
    let mut res: Vec<BCInstruction> = Vec::new();
    let mut i: usize = 0;
    while i < ir.len()
        invariant
            jumps_resolvable(old(ir)@),
            ir@ == resolved(old(ir)@),
            i <= ir@.len(),
            res@.len() == i,
            forall|k: int| 0 <= k < i ==> (#[trigger] ir@[k].spec_lower()) == Some(res@[k]),
        decreases ir@.len() - i,
    {
        match ir[i].to_bc_instruction() {
            Some(inst) => res.push(inst),
            None => {
                assert(ir@[i as int].spec_lower() is None);
                assert(lowered(ir@) is None);
                assert(compiled(old(ir)@) is None);
                return Err(internal_error("operand does not fit its field"));
            },
        }
        i += 1;
    }
    assert(lowered(ir@) == Some(res@)) by {
        assert(Seq::new(ir@.len(), |k: int| ir@[k].spec_lower().unwrap()) =~= res@);
    }
    Ok(res)
}

} // verus!
