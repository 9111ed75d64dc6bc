use lkql_jit::errors::ErrorKind;
use lkql_jit::lkqlc::env::{name_with_depth, CompilationEnv, LocalResult, UpvalueResult};

#[test]
fn interning_twice_gives_same_index() {
    let mut env = CompilationEnv::new();
    let a = env.add_string_constant(String::from("a")).ok().unwrap();
    let again = env.add_string_constant(String::from("a")).ok().unwrap();
    let b = env.add_string_constant(String::from("b")).ok().unwrap();
    assert_eq!(a, 0);
    assert_eq!(again, 0);
    assert_eq!(b, 1);
    assert!(env.close_env().is_ok());
    let bytes = env.get_bytecode();
    // header, size, flags, args, frame, upvalues, then two complex constants
    assert_eq!(bytes[10], 2);
}

#[test]
fn declared_locals_get_distinct_slots_and_are_reused() {
    let mut env = CompilationEnv::new();
    env.open_pseudo_env();
    let mut slots = Vec::new();
    for name in ["x", "y", "z"] {
        match env.add_local(String::from(name)) {
            LocalResult::Slot(s) => slots.push(s),
            _ => panic!("below the spill threshold"),
        }
    }
    assert_eq!(slots, vec![0, 1, 2]);
    match env.get_local("y") {
        LocalResult::Slot(s) => assert_eq!(s, 1),
        _ => panic!("y is declared"),
    }
    env.close_pseudo_env();
    assert!(matches!(env.get_local("y"), LocalResult::NotFound));
    match env.add_local(String::from("w")) {
        LocalResult::Slot(s) => assert_eq!(s, 0),
        _ => panic!("below the spill threshold"),
    }
}

#[test]
fn shadowing_in_inner_block() {
    let mut env = CompilationEnv::new();
    env.add_local(String::from("x"));
    env.open_pseudo_env();
    env.add_local(String::from("x"));
    assert!(matches!(env.get_local("x"), LocalResult::Slot(1)));
    env.close_pseudo_env();
    assert!(matches!(env.get_local("x"), LocalResult::Slot(0)));
}

#[test]
fn locals_past_threshold_are_spilled() {
    let mut env = CompilationEnv::new();
    env.open_env(0);
    for i in 0..220 {
        assert!(matches!(env.add_local(format!("v{}", i)), LocalResult::Slot(_)));
    }
    match env.add_local(String::from("x")) {
        LocalResult::Name(n) => assert_eq!(n, "_x"),
        _ => panic!("slot 220 is reserved"),
    }
    match env.get_local("x") {
        LocalResult::Name(n) => assert_eq!(n, "_x"),
        _ => panic!("x was spilled"),
    }
}

#[test]
fn names_with_depth() {
    assert_eq!(name_with_depth("x", 0), "x");
    assert_eq!(name_with_depth("x", 2), "__x");
}

#[test]
fn doubly_nested_read_captures_at_each_level() {
    let mut env = CompilationEnv::new();
    env.add_local(String::from("a"));
    env.add_local(String::from("v"));
    env.open_env(0);
    env.open_env(0);
    let first = env.get_upvalue("v").ok().unwrap();
    let second = env.get_upvalue("v").ok().unwrap();
    assert!(matches!(first, UpvalueResult::Slot(0)));
    assert!(matches!(second, UpvalueResult::Slot(0)));
    assert!(matches!(env.get_upvalue("nothing").ok().unwrap(), UpvalueResult::NotFound));
    assert!(env.close_env().is_ok());
    let inner = env.get_bytecode();
    // inner prototype: size, flags 0, args 0, frame 0, one upvalue, ..., reference 0 (upvalue 0 of its parent)
    assert_eq!(inner[9], 1);
    assert!(env.close_env().is_ok());
    let both = env.get_bytecode();
    // the middle prototype follows the inner one; its upvalue refers to register 1 of the top level
    let inner_len = inner.len() - 6;
    let mid = &both[5 + inner_len..];
    assert_eq!(mid[1], 1); // has a child
    assert_eq!(mid[4], 1); // one upvalue
    let n = mid.len();
    assert_eq!(&mid[n - 3..n - 1], &[0x01, 0xC0]);
}

#[test]
fn spilled_outer_variable_is_read_by_name() {
    let mut env = CompilationEnv::new();
    env.open_env(0);
    for i in 0..220 {
        env.add_local(format!("v{}", i));
    }
    env.add_local(String::from("s"));
    env.open_env(0);
    match env.get_upvalue("s").ok().unwrap() {
        UpvalueResult::Name(n) => assert_eq!(n, "_s"),
        _ => panic!("s was spilled"),
    }
}

#[test]
fn contiguous_temporaries() {
    let mut env = CompilationEnv::new();
    let a = env.new_tmp().ok().unwrap();
    let b = env.new_tmp().ok().unwrap();
    let c = env.new_tmp().ok().unwrap();
    assert_eq!((a, b, c), (0, 1, 2));
    env.free_tmp(b);
    let run = env.new_tmps(2).ok().unwrap();
    assert_eq!(run, vec![3, 4]);
    let one = env.new_tmps(1).ok().unwrap();
    assert_eq!(one, vec![1]);
    assert_eq!(env.new_tmps(0).ok().unwrap(), Vec::<u8>::new());
    env.free_tmps(run);
    assert_eq!(env.new_tmp().ok().unwrap(), 3);
}

#[test]
fn temporaries_run_out() {
    let mut env = CompilationEnv::new();
    for i in 0..256 {
        assert_eq!(env.new_tmp().ok().unwrap() as usize, i);
    }
    match env.new_tmp() {
        Err(e) => assert_eq!(e.kind, ErrorKind::Exhausted),
        Ok(_) => panic!("all registers are busy"),
    }
    env.free_tmp(10);
    match env.new_tmps(2) {
        Err(e) => assert_eq!(e.kind, ErrorKind::Exhausted),
        Ok(_) => panic!("no two consecutive registers are free"),
    }
}

#[test]
fn globals_and_labels() {
    let mut env = CompilationEnv::new();
    assert!(env.get_global("print"));
    assert!(!env.get_global("other"));
    env.add_global(String::from("other"));
    assert!(env.get_global("other"));
    assert_eq!(env.new_label(), 1);
    assert_eq!(env.new_label(), 2);
}

#[test]
fn expression_and_return_slots() {
    let mut env = CompilationEnv::new();
    assert_eq!(env.get_expr_slot(), None);
    env.set_expr_slot(Some(3));
    assert_eq!(env.get_expr_slot(), Some(3));
    assert_eq!(env.get_return_slot(), None);
    env.set_return_slot(Some(4));
    assert_eq!(env.get_return_slot(), Some(4));
    assert!(env.close_env().is_ok());
    let bytes = env.get_bytecode();
    // RET1 4, 2
    assert_eq!(&bytes[13..17], &[0x4C, 4, 2, 0]);
}

#[test]
fn closing_with_too_large_a_frame_fails() {
    let mut env = CompilationEnv::new();
    for _ in 0..256 {
        env.new_tmp().ok().unwrap();
    }
    match env.close_env() {
        Err(e) => assert_eq!(e.kind, ErrorKind::Exhausted),
        Ok(_) => panic!("a frame of 256 does not fit a byte"),
    }
}
