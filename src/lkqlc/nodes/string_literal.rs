//! String literals.
use vstd::prelude::*;
use vstd::string::*;
use crate::errors::LKQLError;
use crate::lkqlc::bc::KSTR;
use crate::lkqlc::env::CompilationEnv;
use crate::lkqlc::ir::{IRArg, IRInstAD, IRInstruction};
use crate::lkqlc::{compile_all, compiled_to, inst_ad, lemma_compile_one, with_current, Node, NodeKind};

verus! {

/// Compile a string literal: intern its contents without the quotes and load
/// them into the expression register, if there is one.
pub fn compile(node: &Node, env: &mut CompilationEnv) -> (r: Result<(), LKQLError>)
    requires
        old(env).wf(),
        old(env).scopes().len() >= 1,
        node.kind == NodeKind::StringLiteral,
    ensures
        final(env).wf(),
        final(env).globals() == old(env).globals(),
        final(env).prototypes() == old(env).prototypes(),
        final(env).scopes().len() == old(env).scopes().len(),
        final(env).scopes()[0].locals == old(env).scopes()[0].locals,
        compiled_to(compile_all(seq![*node], old(env).globals(), old(env).scopes()), final(env).scopes(), r),
{
    proof {
        lemma_compile_one(*node, old(env).globals(), old(env).scopes());
    }
    let expr_slot = env.get_expr_slot();
    match expr_slot {
        None => Ok(()),
        Some(e) => {
            let full = node.text.as_str();
            let n = full.unicode_len();
            if n < 2 {
                return Err(LKQLError::new(String::from_str("malformed string literal")));
            }
            let contents = full.substring_char(1, n - 1);
            match env.add_string_constant(String::from_str(contents)) {
                Ok(index) => {
                    let ghost mid = env.scopes();
                    env.add_instruction(IRInstruction::AD(IRInstAD::new(KSTR, IRArg::Slot(e), IRArg::Str(index))));
                    assert(env.scopes() =~= with_current(old(env).scopes(), mid[0].push_instruction(inst_ad(KSTR, e, IRArg::Str(index)))));
                    Ok(())
                },
                Err(er) => Err(er),
            }
        },
    }
}

} // verus!
