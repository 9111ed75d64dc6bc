//! The list of top-level statements.
use vstd::prelude::*;
use crate::errors::LKQLError;
use crate::lkqlc::env::CompilationEnv;
use crate::lkqlc::{
    compile_all, compile_node, compiled_to, lemma_compile_err_prefix, lemma_compile_one, lemma_compile_push, Node, NodeKind,
};

verus! {

/// Compile each child in order, stopping at the first failure.
pub fn compile(node: &Node, env: &mut CompilationEnv) -> (r: Result<(), LKQLError>)
    requires
        old(env).wf(),
        old(env).scopes().len() >= 1,
        node.kind == NodeKind::TopLevelList,
    ensures
        final(env).wf(),
        final(env).globals() == old(env).globals(),
        final(env).prototypes() == old(env).prototypes(),
        final(env).scopes().len() == old(env).scopes().len(),
        final(env).scopes()[0].locals == old(env).scopes()[0].locals,
        compiled_to(compile_all(seq![*node], old(env).globals(), old(env).scopes()), final(env).scopes(), r),
    decreases *node, 0nat,
{
    proof {
        lemma_compile_one(*node, old(env).globals(), old(env).scopes());
    }
    let ghost g = old(env).globals();
    let ghost st = old(env).scopes();
    let ghost children = node.children@;
    let mut i: usize = 0;
    assert(children.take(0) =~= Seq::<Node>::empty());
    while i < node.children.len()
        invariant
            node.kind == NodeKind::TopLevelList,
            g == old(env).globals(),
            st == old(env).scopes(),
            env.wf(),
            env.globals() == g,
            env.prototypes() == old(env).prototypes(),
            env.scopes().len() == st.len(),
            env.scopes()[0].locals == st[0].locals,
            st.len() >= 1,
            children == node.children@,
            i <= children.len(),
            compile_all(children.take(i as int), g, st) == Ok::<Seq<crate::lkqlc::env::ScopeView>, crate::lkqlc::CompileError>(env.scopes()),
        decreases children.len() - i,
    {
        let ghost cur = env.scopes();
        proof {
            lemma_compile_push(children.take(i as int), children[i as int], g, st);
            assert(children.take(i as int).push(children[i as int]) =~= children.take(i as int + 1));
            assert(decreases_to!(*node => node.children@[i as int]));
        }
        match compile_node(&node.children[i], env) {
            Err(e) => {
                proof {
                    assert(compile_all(seq![children[i as int]], g, cur) is Err);
                    assert(compile_all(children.take(i as int + 1), g, st) is Err);
                    lemma_compile_err_prefix(children, i as int + 1, g, st);
                    lemma_compile_one(*node, g, st);
                    assert(compile_all(seq![*node], g, st) == compile_all(children, g, st));
                }
                return Err(e);
            },
            Ok(_) => {},
        }
        i += 1;
    }
    assert(children.take(i as int) =~= children);
    Ok(())
}

} // verus!
