//! The syntax-tree model and the compilation of a tree into bytecode.
pub mod bc;
pub mod builtins;
pub mod env;
pub mod ir;
pub mod nodes;

use vstd::prelude::*;
use vstd::string::*;
use crate::errors::{ErrorKind, LKQLError};
use crate::lkqlc::bc::{program_bytes, Header, Prototype, CALL, GGET, KPRI, KSTR, MOV, UGET};
use crate::lkqlc::builtins::BUILTIN_PRINT;
use crate::lkqlc::env::{
    no_run_message, pool_full_message, upvalues_full_message,
    first_index, lemma_first_index, run_free, find_local, lookup_upvalue, spilled_name, CompilationEnv, LocalResult, ScopeView, UpvalueResult, UvOutcome,
    SLOT_COUNT,
};
use crate::lkqlc::ir::{IRArg, IRInstABC, IRInstAD, IRInstruction, Primitive};

verus! {

broadcast use vstd::seq_lib::group_seq_properties;

// --- The syntax tree

/// The kinds of syntax node the compiler tells apart.
#[derive(Debug, Clone, Copy, PartialEq, Eq, Structural)]
pub enum NodeKind {
    TopLevelList,
    FunCall,
    BoolLiteralTrue,
    BoolLiteralFalse,
    IntegerLiteral,
    StringLiteral,
    NullLiteral,
    UnitLiteral,
    ListLiteral,
    ObjectLiteral,
    BlockStringLiteral,
    /// Any other kind.
    Other,
}

fn same_text(a: &str, b: &str) -> (r: bool)
    ensures
        r == (a@ == b@),
{
    String::from_str(a) == String::from_str(b)
}

/// The kind of the node whose kind name, as the parser reports it, is `name`.
pub open spec fn kind_named(name: Seq<char>) -> NodeKind {
    if name == "TopLevelList"@ {
        NodeKind::TopLevelList
    } else if name == "FunCall"@ {
        NodeKind::FunCall
    } else if name == "BoolLiteralTrue"@ {
        NodeKind::BoolLiteralTrue
    } else if name == "BoolLiteralFalse"@ {
        NodeKind::BoolLiteralFalse
    } else if name == "IntegerLiteral"@ {
        NodeKind::IntegerLiteral
    } else if name == "StringLiteral"@ {
        NodeKind::StringLiteral
    } else if name == "NullLiteral"@ {
        NodeKind::NullLiteral
    } else if name == "UnitLiteral"@ {
        NodeKind::UnitLiteral
    } else if name == "ListLiteral"@ {
        NodeKind::ListLiteral
    } else if name == "ObjectLiteral"@ {
        NodeKind::ObjectLiteral
    } else if name == "BlockStringLiteral"@ {
        NodeKind::BlockStringLiteral
    } else {
        NodeKind::Other
    }
}

impl NodeKind {
    /// The kind of the node whose kind name, as the parser reports it, is `name`;
    /// `Other` for a kind the compiler does not tell apart.
    pub fn from_name(name: &str) -> (r: NodeKind)
        ensures
            r == kind_named(name@),
    {
        if same_text(name, "TopLevelList") {
            return NodeKind::TopLevelList;
        }
        if same_text(name, "FunCall") {
            return NodeKind::FunCall;
        }
        if same_text(name, "BoolLiteralTrue") {
            return NodeKind::BoolLiteralTrue;
        }
        if same_text(name, "BoolLiteralFalse") {
            return NodeKind::BoolLiteralFalse;
        }
        if same_text(name, "IntegerLiteral") {
            return NodeKind::IntegerLiteral;
        }
        if same_text(name, "StringLiteral") {
            return NodeKind::StringLiteral;
        }
        if same_text(name, "NullLiteral") {
            return NodeKind::NullLiteral;
        }
        if same_text(name, "UnitLiteral") {
            return NodeKind::UnitLiteral;
        }
        if same_text(name, "ListLiteral") {
            return NodeKind::ListLiteral;
        }
        if same_text(name, "ObjectLiteral") {
            return NodeKind::ObjectLiteral;
        }
        if same_text(name, "BlockStringLiteral") {
            return NodeKind::BlockStringLiteral;
        }
        NodeKind::Other
    }
}

/// A syntax node: its kind, its children in order, and its source text. A
/// function call has two children: the called name, then the argument.
pub struct Node {
    pub kind: NodeKind,
    pub children: Vec<Node>,
    pub text: String,
}

/// Whether the node is a literal constant.
pub fn node_is_literal(node: &Node) -> (r: bool)
    ensures
        r <==> (node.kind == NodeKind::NullLiteral || node.kind == NodeKind::UnitLiteral
            || node.kind == NodeKind::BoolLiteralTrue || node.kind == NodeKind::BoolLiteralFalse
            || node.kind == NodeKind::IntegerLiteral || node.kind == NodeKind::StringLiteral
            || node.kind == NodeKind::ListLiteral || node.kind == NodeKind::ObjectLiteral
            || node.kind == NodeKind::BlockStringLiteral),
{
    match node.kind {
        NodeKind::NullLiteral | NodeKind::UnitLiteral | NodeKind::BoolLiteralTrue | NodeKind::BoolLiteralFalse
        | NodeKind::IntegerLiteral | NodeKind::StringLiteral | NodeKind::ListLiteral | NodeKind::ObjectLiteral
        | NodeKind::BlockStringLiteral => true,
        _ => false,
    }
}

// --- The instructions that compilation emits

pub open spec fn inst_ad(op: u8, a: u8, d: IRArg) -> IRInstruction {
    IRInstruction::AD(IRInstAD { label: None, op_code: op, a: IRArg::Slot(a), d })
}

pub open spec fn inst_call(f: u8) -> IRInstruction {
    IRInstruction::ABC(IRInstABC { label: None, op_code: CALL, a: IRArg::Slot(f), b: IRArg::Literal(1), c: IRArg::Literal(2) })
}

/// A failure of compilation in the model: its kind and its message.
pub type CompileError = (ErrorKind, Seq<char>);

/// The message of a function call without exactly a name and an argument.
pub open spec fn malformed_call_message() -> Seq<char> {
    "malformed function call"@
}

/// The message of a string literal too short to hold its quotes.
pub open spec fn malformed_string_message() -> Seq<char> {
    "malformed string literal"@
}

/// The message of a node kind without a compilation rule.
pub open spec fn unknown_kind_message() -> Seq<char> {
    "unknown node kind, cannot proceed to compilation"@
}

/// The scopes with the current one replaced.
pub open spec fn with_current(st: Seq<ScopeView>, s: ScopeView) -> Seq<ScopeView> {
    st.update(0, s)
}

/// Intern `n` in the current scope, then emit a global read of it into `e`.
pub open spec fn global_read(st: Seq<ScopeView>, e: u8, n: Seq<char>) -> Result<Seq<ScopeView>, CompileError> {
    match st[0].intern(n) {
        Some((s1, k)) => Ok(with_current(st, s1.push_instruction(inst_ad(GGET, e, IRArg::Str(k as u16))))),
        None => Err((ErrorKind::Exhausted, pool_full_message())),
    }
}

/// Two global reads of one name intern it once: both read instructions refer
/// to the same pool index, the first read adds the name to the pool only if it
/// was not there, and the second read leaves the pool as it found it. (This is
/// what two calls of one global function do with its name.)
pub proof fn lemma_global_read_twice(st: Seq<ScopeView>, e1: u8, e2: u8, n: Seq<char>)
    requires
        st.len() >= 1,
        st[0].wf(),
        global_read(st, e1, n) is Ok,
    ensures
        ({
            let k = st[0].intern(n).unwrap().1;
            let st1 = global_read(st, e1, n)->Ok_0;
            let st2 = global_read(st1, e2, n);
            &&& st1[0].ir == st[0].ir.push(inst_ad(GGET, e1, IRArg::Str(k as u16)))
            &&& st1[0].strings == if st[0].strings.contains(n) { st[0].strings } else { st[0].strings.push(n) }
            &&& st2 is Ok
            &&& st2->Ok_0[0].ir == st1[0].ir.push(inst_ad(GGET, e2, IRArg::Str(k as u16)))
            &&& st2->Ok_0[0].strings == st1[0].strings
        }),
{
    crate::lkqlc::env::lemma_intern_twice(st[0], n);
    let (s1, k) = st[0].intern(n).unwrap();
    let st1 = global_read(st, e1, n)->Ok_0;
    assert(st1[0].strings == s1.strings);
    assert(st1[0].intern(n) == Some((st1[0], k)));
}

/// Loading a declared global whose name the current function's pool already
/// holds adds no pool entry: the read refers to the existing index. So a second
/// call of one global function reads its name through the index that the first
/// call interned.
pub proof fn lemma_load_pooled_global(name: Seq<char>, globals: Set<Seq<char>>, st: Seq<ScopeView>, copy: bool, k: nat)
    requires
        st.len() >= 1,
        st[0].wf(),
        st[0].expr_slot is Some,
        find_local(st[0].locals, name) is None,
        lookup_upvalue(st, name, 0).1 is Missing,
        globals.contains(name),
        k < st[0].strings.len(),
        st[0].strings[k as int] == name,
    ensures
        load_var_spec(name, globals, st, copy) == Ok::<Seq<ScopeView>, CompileError>(
            with_current(st, st[0].push_instruction(inst_ad(GGET, st[0].expr_slot.unwrap(), IRArg::Str(k as u16)))),
        ),
{
    crate::lkqlc::env::lemma_lookup_unchanged(st, name, 0);
    let p = crate::lkqlc::env::string_pred(name);
    lemma_first_index(st[0].strings, p);
    match first_index(st[0].strings, p) {
        Some(i) => {
            if i < k {
                assert(st[0].strings[i as int] != st[0].strings[k as int]);
            } else if i > k {
                assert(!p(st[0].strings[k as int]));
            }
        },
        None => {
            assert(!p(st[0].strings[k as int]));
        },
    }
}

/// Load the variable `name` for reading. A register of the current function
/// becomes the expression register itself; anything else is read into the
/// expression register `e`: an upvalue (captured as needed), or a global read
/// of a spilled name or of a declared global. An unknown name fails.
pub open spec fn load_var_spec(name: Seq<char>, globals: Set<Seq<char>>, st: Seq<ScopeView>, copy: bool) -> Result<Seq<ScopeView>, CompileError> {
    let s = st[0];
    let e = s.expr_slot.unwrap();
    match find_local(s.locals, name) {
        Some(Some(slot)) => if copy {
            Ok(with_current(st, s.push_instruction(inst_ad(MOV, e, IRArg::Slot(slot)))))
        } else {
            Ok(with_current(st, ScopeView { expr_slot: Some(slot), ..s }))
        },
        Some(None) => global_read(st, e, spilled_name(name, s.depth)),
        None => {
            let (st2, out) = lookup_upvalue(st, name, 0);
            match out {
                UvOutcome::Found(u) => Ok(with_current(st2, st2[0].push_instruction(inst_ad(UGET, e, IRArg::Upvalue(u))))),
                UvOutcome::Spilled(n) => global_read(st2, e, n),
                UvOutcome::Missing => if globals.contains(name) {
                    global_read(st2, e, name)
                } else {
                    Err((ErrorKind::Compilation, undefined_message(name)))
                },
                UvOutcome::Full => Err((ErrorKind::Exhausted, upvalues_full_message())),
            }
        },
    }
}

/// Loading `name` reads a value into the expression register: every case but a
/// register of the current function loaded for reading only, an unknown name,
/// and a full upvalue table.
pub open spec fn load_reads_into_expr(name: Seq<char>, globals: Set<Seq<char>>, st: Seq<ScopeView>, copy: bool) -> bool {
    match find_local(st[0].locals, name) {
        Some(Some(_)) => copy,
        Some(None) => true,
        None => match lookup_upvalue(st, name, 0).1 {
            UvOutcome::Missing => globals.contains(name),
            UvOutcome::Full => false,
            _ => true,
        },
    }
}

/// The characters of a string literal between its quotes.
pub open spec fn literal_contents(text: Seq<char>) -> Seq<char> {
    text.subrange(1, text.len() - 1)
}

/// Emit `inst` into the expression register, if there is one.
pub open spec fn emit_to_expr(st: Seq<ScopeView>, inst: spec_fn(u8) -> IRInstruction) -> Seq<ScopeView> {
    match st[0].expr_slot {
        Some(e) => with_current(st, st[0].push_instruction(inst(e))),
        None => st,
    }
}

/// The candidate starts of a run of registers.
pub open spec fn run_starts() -> Seq<nat> {
    Seq::new(SLOT_COUNT as nat + 1, |i: int| i as nat)
}

/// Holds of the start of a run of `n` free registers.
pub open spec fn run_pred(occupied: Seq<bool>, n: nat) -> spec_fn(nat) -> bool {
    |st: nat| run_free(occupied, st as int, n as int)
}

/// The lowest start of a run of `n` free registers.
pub open spec fn first_run(occupied: Seq<bool>, n: nat) -> Option<nat> {
    first_index(run_starts(), run_pred(occupied, n))
}

pub proof fn lemma_first_run(occupied: Seq<bool>, n: nat, start: int)
    requires
        occupied.len() == SLOT_COUNT,
        run_free(occupied, start, n as int),
        forall|st: int| 0 <= st < start ==> !run_free(occupied, st, n as int),
    ensures
        first_run(occupied, n) == Some(start as nat),
{
    let s = run_starts();
    let p = run_pred(occupied, n);
    lemma_first_index(s, p);
    assert(s[start] == start as nat);
    assert(p(s[start]));
    match first_index(s, p) {
        Some(i) => {
            assert(s[i as int] == i);
            if i > start {
                assert(!p(s[start]));
            }
        },
        None => {},
    }
}

pub proof fn lemma_first_run_none(occupied: Seq<bool>, n: nat)
    requires
        forall|st: int| !run_free(occupied, st, n as int),
    ensures
        first_run(occupied, n) is None,
{
    let s = run_starts();
    let p = run_pred(occupied, n);
    lemma_first_index(s, p);
    match first_index(s, p) {
        Some(i) => {
            assert(s[i as int] == i);
            assert(!run_free(occupied, i as int, n as int));
        },
        None => {},
    }
}

/// The scopes after compiling `nodes` in order, or the kind of the first failure.
pub open spec fn compile_all(nodes: Seq<Node>, globals: Set<Seq<char>>, st: Seq<ScopeView>) -> Result<Seq<ScopeView>, CompileError>
    decreases nodes,
{
    if nodes.len() == 0 {
        Ok(st)
    } else {
        match compile_all(nodes.drop_last(), globals, st) {
            Err(k) => Err(k),
            Ok(st) => {
                let node = nodes.last();
                let s = st[0];
                match node.kind {
                    NodeKind::TopLevelList => compile_all(node.children@, globals, st),
                    NodeKind::BoolLiteralTrue => Ok(emit_to_expr(st, |e: u8| inst_ad(KPRI, e, IRArg::Primitive(Primitive::True)))),
                    NodeKind::BoolLiteralFalse => Ok(emit_to_expr(st, |e: u8| inst_ad(KPRI, e, IRArg::Primitive(Primitive::False)))),
                    NodeKind::IntegerLiteral => Ok(st),
                    NodeKind::StringLiteral => match s.expr_slot {
                        None => Ok(st),
                        Some(e) => if node.text@.len() < 2 {
                            Err((ErrorKind::Compilation, malformed_string_message()))
                        } else {
                            match s.intern(literal_contents(node.text@)) {
                                Some((s1, k)) => Ok(with_current(st, s1.push_instruction(inst_ad(KSTR, e, IRArg::Str(k as u16))))),
                                None => Err((ErrorKind::Exhausted, pool_full_message())),
                            }
                        },
                    },
                    NodeKind::FunCall => if node.children@.len() != 2 {
                        Err((ErrorKind::Compilation, malformed_call_message()))
                    } else {
                        match first_run(s.occupied, 2) {
                            None => Err((ErrorKind::Exhausted, no_run_message())),
                            Some(f) => {
                                let res_slot = s.expr_slot;
                                let s1 = ScopeView { expr_slot: Some(f as u8), ..crate::lkqlc::env::occupy_run(s, f, 2) };
                                match load_var_spec(node.children@[0].text@, globals, with_current(st, s1), true) {
                                    Err(k) => Err(k),
                                    Ok(st2) => {
                                        let st3 = with_current(st2, ScopeView { expr_slot: Some((f + 1) as u8), ..st2[0] });
                                        match compile_all(node.children@.subrange(1, 2), globals, st3) {
                                            Err(k) => Err(k),
                                            Ok(st4) => {
                                                let s5 = st4[0].push_instruction(inst_call(f as u8));
                                                let s6 = match res_slot {
                                                    Some(r) => s5.push_instruction(inst_ad(MOV, r, IRArg::Slot(f as u8))),
                                                    None => s5,
                                                };
                                                Ok(with_current(st4, ScopeView {
                                                    occupied: s6.occupied.update(f as int, false).update(f + 1int, false),
                                                    expr_slot: res_slot,
                                                    ..s6
                                                }))
                                            },
                                        }
                                    },
                                }
                            },
                        }
                    },
                    _ => Err((ErrorKind::UnknownNode, unknown_kind_message())),
                }
            },
        }
    }
}


/// The compilation result `res` is what `r` and the scopes `after` show.
pub open spec fn compiled_to(res: Result<Seq<ScopeView>, CompileError>, after: Seq<ScopeView>, r: Result<(), LKQLError>) -> bool {
    match res {
        Ok(st) => r is Ok && after == st,
        Err((k, m)) => r matches Err(e) && e.kind == k && e.message@ == m,
    }
}

/// Compiling one node starts from the scopes as they are.
pub proof fn lemma_compile_one(node: Node, globals: Set<Seq<char>>, st: Seq<ScopeView>)
    ensures
        seq![node].drop_last() == Seq::<Node>::empty(),
        compile_all(Seq::<Node>::empty(), globals, st) == Ok::<Seq<ScopeView>, CompileError>(st),
{
    assert(seq![node].drop_last() =~= Seq::<Node>::empty());
}

pub proof fn lemma_compile_push(s: Seq<Node>, c: Node, globals: Set<Seq<char>>, st: Seq<ScopeView>)
    ensures
        compile_all(s.push(c), globals, st) == match compile_all(s, globals, st) {
            Err(k) => Err(k),
            Ok(st1) => compile_all(seq![c], globals, st1),
        },
{
    assert(s.push(c).drop_last() =~= s);
    assert(seq![c].drop_last() =~= Seq::<Node>::empty());
    match compile_all(s, globals, st) {
        Ok(st1) => {
            assert(compile_all(Seq::<Node>::empty(), globals, st1) == Ok::<Seq<ScopeView>, CompileError>(st1));
        },
        Err(_) => {},
    }
}

proof fn lemma_compile_err_prefix(s: Seq<Node>, m: int, globals: Set<Seq<char>>, st: Seq<ScopeView>)
    requires
        0 <= m <= s.len(),
        compile_all(s.take(m), globals, st) is Err,
    ensures
        compile_all(s, globals, st) == compile_all(s.take(m), globals, st),
    decreases s.len() - m,
{
    if m < s.len() {
        lemma_compile_push(s.take(m), s[m], globals, st);
        assert(s.take(m).push(s[m]) =~= s.take(m + 1));
        lemma_compile_err_prefix(s, m + 1, globals, st);
    } else {
        assert(s.take(m) =~= s);
    }
}

/// Intern `n` and emit a global read of it into register `e`.
fn global_load(n: String, e: u8, env: &mut CompilationEnv) -> (r: Result<(), LKQLError>)
    requires
        old(env).wf(),
        old(env).scopes().len() >= 1,
    ensures
        final(env).wf(),
        final(env).globals() == old(env).globals(),
        final(env).prototypes() == old(env).prototypes(),
        final(env).scopes().len() == old(env).scopes().len(),
        final(env).scopes()[0].locals == old(env).scopes()[0].locals,
        compiled_to(global_read(old(env).scopes(), e, n@), final(env).scopes(), r),
{
    match env.add_string_constant(n) {
        Ok(index) => {
            let ghost mid = env.scopes();
            env.add_instruction(IRInstruction::AD(IRInstAD::new(GGET, IRArg::Slot(e), IRArg::Str(index))));
            assert(env.scopes() =~= with_current(old(env).scopes(), mid[0].push_instruction(inst_ad(GGET, e, IRArg::Str(index)))));
            Ok(())
        },
        Err(er) => Err(er),
    }
}

/// The message of an unresolved reference: it names the variable.
pub open spec fn undefined_message(name: Seq<char>) -> Seq<char> {
    "undefined variable: "@ + name
}

fn undefined_variable(name: &str) -> (r: LKQLError)
    ensures
        r.kind == ErrorKind::Compilation,
        r.message@ == undefined_message(name@),
{
    LKQLError::new(String::from_str("undefined variable: ").concat(name))
}

/// Load a variable for reading: a register of the current function becomes the
/// expression register; anything else is read into the expression register.
pub fn load_var(name: &str, env: &mut CompilationEnv) -> (r: Result<(), LKQLError>)
    requires
        old(env).wf(),
        old(env).scopes().len() >= 1,
        load_reads_into_expr(name@, old(env).globals(), old(env).scopes(), false) ==> old(env).scopes()[0].expr_slot is Some,
    ensures
        final(env).wf(),
        final(env).globals() == old(env).globals(),
        final(env).prototypes() == old(env).prototypes(),
        final(env).scopes().len() == old(env).scopes().len(),
        final(env).scopes()[0].locals == old(env).scopes()[0].locals,
        compiled_to(load_var_spec(name@, old(env).globals(), old(env).scopes(), false), final(env).scopes(), r),
        load_var_spec(name@, old(env).globals(), old(env).scopes(), false) == Err::<Seq<ScopeView>, CompileError>((ErrorKind::Compilation, undefined_message(name@)))
            ==> final(env).scopes() == old(env).scopes(),
{
    load(name, env, false)
}

/// Load a variable for writing: its value is always copied into the
/// expression register.
pub fn load_var_copy(name: &str, env: &mut CompilationEnv) -> (r: Result<(), LKQLError>)
    requires
        old(env).wf(),
        old(env).scopes().len() >= 1,
        load_reads_into_expr(name@, old(env).globals(), old(env).scopes(), true) ==> old(env).scopes()[0].expr_slot is Some,
    ensures
        final(env).wf(),
        final(env).globals() == old(env).globals(),
        final(env).prototypes() == old(env).prototypes(),
        final(env).scopes().len() == old(env).scopes().len(),
        final(env).scopes()[0].locals == old(env).scopes()[0].locals,
        compiled_to(load_var_spec(name@, old(env).globals(), old(env).scopes(), true), final(env).scopes(), r),
        load_var_spec(name@, old(env).globals(), old(env).scopes(), true) == Err::<Seq<ScopeView>, CompileError>((ErrorKind::Compilation, undefined_message(name@)))
            ==> final(env).scopes() == old(env).scopes(),
{
    load(name, env, true)
}

fn load(name: &str, env: &mut CompilationEnv, copy: bool) -> (r: Result<(), LKQLError>)
    requires
        old(env).wf(),
        old(env).scopes().len() >= 1,
        load_reads_into_expr(name@, old(env).globals(), old(env).scopes(), copy) ==> old(env).scopes()[0].expr_slot is Some,
    ensures
        final(env).wf(),
        final(env).globals() == old(env).globals(),
        final(env).prototypes() == old(env).prototypes(),
        final(env).scopes().len() == old(env).scopes().len(),
        final(env).scopes()[0].locals == old(env).scopes()[0].locals,
        compiled_to(load_var_spec(name@, old(env).globals(), old(env).scopes(), copy), final(env).scopes(), r),
        load_var_spec(name@, old(env).globals(), old(env).scopes(), copy) == Err::<Seq<ScopeView>, CompileError>((ErrorKind::Compilation, undefined_message(name@)))
            ==> final(env).scopes() == old(env).scopes(),
{
    let e = match env.get_expr_slot() {
        Some(e) => e,
        None => 0,
    };
    match env.get_local(name) {
        LocalResult::Slot(slot) => {
            if copy {
                env.add_instruction(IRInstruction::AD(IRInstAD::new(MOV, IRArg::Slot(e), IRArg::Slot(slot))));
            } else {
                env.set_expr_slot(Some(slot));
            }
            Ok(())
        },
        LocalResult::Name(n) => global_load(n, e, env),
        LocalResult::NotFound => {
            let ghost st = env.scopes();
            let upvalue = env.get_upvalue(name);
            proof {
                lemma_lookup_same_current(st, name@);
                crate::lkqlc::env::lemma_lookup_keeps_locals(st, name@, 0);
            }
            match upvalue {
                Err(er) => Err(er),
                Ok(UpvalueResult::Slot(uv_slot)) => {
                    env.add_instruction(IRInstruction::AD(IRInstAD::new(UGET, IRArg::Slot(e), IRArg::Upvalue(uv_slot))));
                    Ok(())
                },
                Ok(UpvalueResult::Name(n)) => global_load(n, e, env),
                Ok(UpvalueResult::NotFound) => {
                    proof {
                        crate::lkqlc::env::lemma_lookup_unchanged(st, name@, 0);
                    }
                    if env.get_global(name) {
                        global_load(String::from_str(name), e, env)
                    } else {
                        Err(undefined_variable(name))
                    }
                },
            }
        },
    }
}

proof fn lemma_lookup_same_current(st: Seq<ScopeView>, name: Seq<char>)
    requires
        st.len() >= 1,
    ensures
        lookup_upvalue(st, name, 0).0.len() == st.len(),
{
    crate::lkqlc::env::lemma_lookup_keeps_inner(st, name, 0);
}

/// Compile one syntax node into the current function.
pub fn compile_node(node: &Node, env: &mut CompilationEnv) -> (r: Result<(), LKQLError>)
    requires
        old(env).wf(),
        old(env).scopes().len() >= 1,
    ensures
        final(env).wf(),
        final(env).globals() == old(env).globals(),
        final(env).prototypes() == old(env).prototypes(),
        final(env).scopes().len() == old(env).scopes().len(),
        final(env).scopes()[0].locals == old(env).scopes()[0].locals,
        compiled_to(compile_all(seq![*node], old(env).globals(), old(env).scopes()), final(env).scopes(), r),
    decreases *node, 1nat,
{
    match node.kind {
        NodeKind::TopLevelList => nodes::top_level_list::compile(node, env),
        NodeKind::FunCall => nodes::fun_call::compile(node, env),
        NodeKind::BoolLiteralTrue => nodes::bool_literal::compile_true(node, env),
        NodeKind::BoolLiteralFalse => nodes::bool_literal::compile_false(node, env),
        NodeKind::IntegerLiteral => nodes::integer_literal::compile(node, env),
        NodeKind::StringLiteral => nodes::string_literal::compile(node, env),
        _ => {
            proof {
                lemma_compile_one(*node, old(env).globals(), old(env).scopes());
            }
            Err(LKQLError::with_kind(ErrorKind::UnknownNode, String::from_str("unknown node kind, cannot proceed to compilation")))
        },
    }
}


// --- Entry points

/// Compile the given buffer. Source text is not parsed here: this gives the
/// bytecode of a program with no function.
pub fn compile_lkql_buffer(buffer: &str, name: &str) -> (r: Vec<u8>)
    ensures
        r@ == program_bytes(Header::spec_new(), Seq::empty()),
{
    let env = CompilationEnv::new();
    env.get_bytecode()
}

/// Compile a whole syntax tree as the top-level function, and give the bytecode.
pub fn compile_lkql_tree(root: &Node) -> (r: Result<Vec<u8>, LKQLError>)
    ensures
        match compile_all(seq![*root], set![BUILTIN_PRINT@], seq![ScopeView::initial(0, 0)]) {
            Err((k, m)) => r matches Err(e) && e.kind == k && e.message@ == m,
            Ok(st) => {
                &&& r is Ok <==> st[0].finalizable()
                &&& r matches Ok(bytes) ==> exists|p: Prototype| st[0].is_prototype(p)
                    && bytes@ == program_bytes(Header::spec_new(), seq![p])
            },
        },
{
    let mut env = CompilationEnv::new();
    match compile_node(root, &mut env) {
        Err(e) => {
            return Err(e);
        },
        Ok(_) => {},
    }
    match env.close_env() {
        Err(e) => {
            return Err(e);
        },
        Ok(_) => {},
    }
    let bytes = env.get_bytecode();
    proof {
        let p = env.prototypes()[0];
        assert(env.prototypes() =~= seq![p]);
    }
    Ok(bytes)
}

/// Holds of a Unicode scalar value.
pub open spec fn is_scalar(u: u32) -> bool {
    u <= 0x10FFFF && !(0xD800 <= u <= 0xDFFF)
}

/// Relies on widestring's U32Str::to_string: each code unit becomes the
/// character with that value, and it fails exactly when one is not a Unicode
/// scalar value.
#[verifier::external_body]
fn decode_utf32(units: &Vec<u32>) -> (r: Option<String>)
    ensures
        r is Some <==> forall|i: int| 0 <= i < units@.len() ==> is_scalar(#[trigger] units@[i]),
        r matches Some(s) ==> s@.len() == units@.len() && forall|i: int| 0 <= i < units@.len() ==> #[trigger] s@[i] as u32 == units@[i],
{
    widestring::U32Str::from_slice(units.as_slice()).to_string().ok()
}

/// Decode UTF-32 text, as the syntax tree provider hands it over.
pub fn text_to_string(chars: &Vec<u32>) -> (r: Result<String, LKQLError>)
    ensures
        r is Ok <==> forall|i: int| 0 <= i < chars@.len() ==> is_scalar(#[trigger] chars@[i]),
        r matches Ok(s) ==> s@.len() == chars@.len() && forall|i: int| 0 <= i < chars@.len() ==> #[trigger] s@[i] as u32 == chars@[i],
        r matches Err(e) ==> e.kind == ErrorKind::Internal,
{
    match decode_utf32(chars) {
        Some(s) => Ok(s),
        None => Err(LKQLError::with_kind(ErrorKind::Internal, String::from_str("cannot decode the UTF-32 string"))),
    }
}

} // verus!
