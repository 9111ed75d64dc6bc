//! Function calls.
use vstd::prelude::*;
use vstd::string::*;
use crate::errors::LKQLError;
use crate::lkqlc::bc::{CALL, MOV};
use crate::lkqlc::env::{CompilationEnv, ScopeView};
use crate::lkqlc::ir::{IRArg, IRInstABC, IRInstAD, IRInstruction};
use crate::lkqlc::{
    compile_all, compile_node, compiled_to, first_run, inst_ad, inst_call, lemma_compile_one,
    lemma_first_run, lemma_first_run_none, load_var_copy, with_current, Node, NodeKind,
};

verus! {

/// Compile a call of a named function with one argument: take two consecutive
/// temporaries, copy the function into the first and the argument into the
/// second, call, move the result into the expression register if there is one,
/// and free the temporaries.
pub fn compile(node: &Node, env: &mut CompilationEnv) -> (r: Result<(), LKQLError>)
    requires
        old(env).wf(),
        old(env).scopes().len() >= 1,
        node.kind == NodeKind::FunCall,
    ensures
        final(env).wf(),
        final(env).globals() == old(env).globals(),
        final(env).prototypes() == old(env).prototypes(),
        final(env).scopes().len() == old(env).scopes().len(),
        final(env).scopes()[0].locals == old(env).scopes()[0].locals,
        compiled_to(compile_all(seq![*node], old(env).globals(), old(env).scopes()), final(env).scopes(), r),
    decreases *node, 0nat,
{
    proof {
        lemma_compile_one(*node, old(env).globals(), old(env).scopes());
    }
    if node.children.len() != 2 {
        return Err(LKQLError::new(String::from_str("malformed function call")));
    }
    let ghost st = old(env).scopes();
    let ghost s = st[0];
    let slots = match env.new_tmps(2) {
        Ok(v) => v,
        Err(e) => {
            proof {
                lemma_first_run_none(s.occupied, 2);
            }
            return Err(e);
        },
    };
    proof {
        lemma_first_run(s.occupied, 2, slots@[0] as int);
    }
    let res_slot = env.get_expr_slot();
    let fun_slot = slots[0];
    let arg_slot = slots[1];
    env.set_expr_slot(Some(fun_slot));
    assert(env.scopes() =~= with_current(st, ScopeView {
        expr_slot: Some(fun_slot),
        ..crate::lkqlc::env::occupy_run(s, fun_slot as nat, 2)
    }));
    match load_var_copy(node.children[0].text.as_str(), env) {
        Err(e) => {
            return Err(e);
        },
        Ok(_) => {},
    }
    env.set_expr_slot(Some(arg_slot));
    proof {
        assert(node.children@.subrange(1, 2) =~= seq![node.children@[1]]);
        assert(decreases_to!(*node => node.children@[1]));
    }
    match compile_node(&node.children[1], env) {
        Err(e) => {
            return Err(e);
        },
        Ok(_) => {},
    }
    let ghost st4 = env.scopes();
    env.add_instruction(IRInstruction::ABC(IRInstABC::new(CALL, IRArg::Slot(fun_slot), IRArg::Literal(1), IRArg::Literal(2))));
    match res_slot {
        Some(r) => {
            env.add_instruction(IRInstruction::AD(IRInstAD::new(MOV, IRArg::Slot(r), IRArg::Slot(fun_slot))));
        },
        None => {},
    }
    let ghost s6 = env.scopes()[0];
    let ghost sl = slots@;
    proof {
        assert forall|k: int| 0 <= k < sl.len() implies !env.scopes()[0].live_register(#[trigger] sl[k]) by {
            if env.scopes()[0].live_register(sl[k]) {
                let i = choose|i: int| 0 <= i < s.locals.len() && (#[trigger] s.locals[i]).1 == Some(sl[k]);
                assert(s.occupied[sl[k] as int]);
            }
        }
    }
    env.free_tmps(slots);
    env.set_expr_slot(res_slot);
    proof {
        let occ = Seq::new(crate::lkqlc::env::SLOT_COUNT as nat, |j: int| s6.occupied[j] && !sl.contains(j as u8));
        assert forall|j: int| 0 <= j < crate::lkqlc::env::SLOT_COUNT implies #[trigger] occ[j]
            == s6.occupied.update(fun_slot as int, false).update(fun_slot + 1int, false)[j] by {
            assert(sl.contains(j as u8) <==> (j == fun_slot || j == fun_slot + 1)) by {
                if j == fun_slot {
                    assert(sl[0] == j as u8);
                }
                if j == fun_slot + 1 {
                    assert(sl[1] == j as u8);
                }
            }
        }
        assert(occ =~= s6.occupied.update(fun_slot as int, false).update(fun_slot + 1int, false));
        assert(env.scopes() =~= with_current(st4, ScopeView {
            occupied: s6.occupied.update(fun_slot as int, false).update(fun_slot + 1int, false),
            expr_slot: res_slot,
            ..s6
        }));
    }
    Ok(())
}

} // verus!
