//! Boolean literals.
use vstd::prelude::*;
use crate::errors::LKQLError;
use crate::lkqlc::bc::KPRI;
use crate::lkqlc::env::CompilationEnv;
use crate::lkqlc::ir::{IRArg, IRInstAD, IRInstruction, Primitive};
use crate::lkqlc::{compile_all, compiled_to, lemma_compile_one, Node, NodeKind};

verus! {

/// Compile `true`: load the primitive into the expression register, if any.
pub fn compile_true(node: &Node, env: &mut CompilationEnv) -> (r: Result<(), LKQLError>)
    requires
        old(env).wf(),
        old(env).scopes().len() >= 1,
        node.kind == NodeKind::BoolLiteralTrue,
    ensures
        final(env).wf(),
        final(env).globals() == old(env).globals(),
        final(env).prototypes() == old(env).prototypes(),
        final(env).scopes().len() == old(env).scopes().len(),
        final(env).scopes()[0].locals == old(env).scopes()[0].locals,
        compiled_to(compile_all(seq![*node], old(env).globals(), old(env).scopes()), final(env).scopes(), r),
{
    compile_primitive(node, env, Primitive::True)
}

/// Compile `false`: load the primitive into the expression register, if any.
pub fn compile_false(node: &Node, env: &mut CompilationEnv) -> (r: Result<(), LKQLError>)
    requires
        old(env).wf(),
        old(env).scopes().len() >= 1,
        node.kind == NodeKind::BoolLiteralFalse,
    ensures
        final(env).wf(),
        final(env).globals() == old(env).globals(),
        final(env).prototypes() == old(env).prototypes(),
        final(env).scopes().len() == old(env).scopes().len(),
        final(env).scopes()[0].locals == old(env).scopes()[0].locals,
        compiled_to(compile_all(seq![*node], old(env).globals(), old(env).scopes()), final(env).scopes(), r),
{
    compile_primitive(node, env, Primitive::False)
}

fn compile_primitive(node: &Node, env: &mut CompilationEnv, prim: Primitive) -> (r: Result<(), LKQLError>)
    requires
        old(env).wf(),
        old(env).scopes().len() >= 1,
        node.kind == NodeKind::BoolLiteralTrue && prim == Primitive::True
            || node.kind == NodeKind::BoolLiteralFalse && prim == Primitive::False,
    ensures
        final(env).wf(),
        final(env).globals() == old(env).globals(),
        final(env).prototypes() == old(env).prototypes(),
        final(env).scopes().len() == old(env).scopes().len(),
        final(env).scopes()[0].locals == old(env).scopes()[0].locals,
        compiled_to(compile_all(seq![*node], old(env).globals(), old(env).scopes()), final(env).scopes(), r),
{
    proof {
        lemma_compile_one(*node, old(env).globals(), old(env).scopes());
    }
    let expr_slot = env.get_expr_slot();
    match expr_slot {
        Some(e) => {
            env.add_instruction(IRInstruction::AD(IRInstAD::new(KPRI, IRArg::Slot(e), IRArg::Primitive(prim))));
        },
        None => {},
    }
    Ok(())
}

} // verus!
