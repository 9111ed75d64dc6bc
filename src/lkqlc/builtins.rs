//! The global names that every program starts with.
use vstd::prelude::*;
use crate::lkqlc::env::CompilationEnv;

verus! {

/// The name of the built-in printing function.
pub const BUILTIN_PRINT: &'static str = "print";

/// Declare the built-in globals in `env`.
pub fn add_builtins(env: &mut CompilationEnv)
    requires
        old(env).wf(),
    ensures
        final(env).wf(),
        final(env).globals() == old(env).globals().insert(BUILTIN_PRINT@),
        final(env).scopes() == old(env).scopes(),
        final(env).prototypes() == old(env).prototypes(),
{
    env.add_global(String::from_str(BUILTIN_PRINT));
}

} // verus!
