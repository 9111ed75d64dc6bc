//! Integer literals.
use vstd::prelude::*;
use crate::errors::LKQLError;
use crate::lkqlc::env::CompilationEnv;
use crate::lkqlc::{compile_all, compiled_to, lemma_compile_one, Node, NodeKind};

verus! {

/// Compile an integer literal. No instruction is emitted for it yet.
pub fn compile(node: &Node, env: &mut CompilationEnv) -> (r: Result<(), LKQLError>)
    requires
        old(env).wf(),
        old(env).scopes().len() >= 1,
        node.kind == NodeKind::IntegerLiteral,
    ensures
        final(env).wf(),
        final(env).globals() == old(env).globals(),
        final(env).prototypes() == old(env).prototypes(),
        final(env).scopes().len() == old(env).scopes().len(),
        final(env).scopes()[0].locals == old(env).scopes()[0].locals,
        compiled_to(compile_all(seq![*node], old(env).globals(), old(env).scopes()), final(env).scopes(), r),
{
    proof {
        lemma_compile_one(*node, old(env).globals(), old(env).scopes());
    }
    Ok(())
}

} // verus!
