use lkql_jit::errors::{ErrorKind, LKQLError};
use lkql_jit::lkqlc::env::CompilationEnv;
use lkql_jit::lkqlc::{
    compile_lkql_buffer, compile_lkql_tree, compile_node, load_var, load_var_copy, node_is_literal, text_to_string,
    Node, NodeKind,
};

fn leaf(kind: NodeKind, text: &str) -> Node {
    Node { kind, children: Vec::new(), text: String::from(text) }
}

fn list(children: Vec<Node>) -> Node {
    Node { kind: NodeKind::TopLevelList, children, text: String::new() }
}

fn call(name: &str, arg: Node) -> Node {
    Node { kind: NodeKind::FunCall, children: vec![leaf(NodeKind::Other, name), arg], text: String::new() }
}

const HEADER: [u8; 5] = [0x1B, 0x4C, 0x4A, 0x02, 0x06];

#[test]
fn true_literal_in_top_level_list() {
    let mut env = CompilationEnv::new();
    let slot = env.new_tmp().ok().unwrap();
    env.set_expr_slot(Some(slot));
    let root = list(vec![leaf(NodeKind::BoolLiteralTrue, "true")]);
    assert!(compile_node(&root, &mut env).is_ok());
    assert!(env.close_env().is_ok());
    let bytes = env.get_bytecode();
    let mut expected = HEADER.to_vec();
    // flags, args, frame 1, no upvalue, no complex constant, no number, two instructions
    let body = vec![0, 0, 1, 0, 0, 0, 2, 0x2B, 0, 2, 0, 0x4B, 0, 1, 0];
    expected.push(body.len() as u8);
    expected.extend_from_slice(&body);
    expected.push(0);
    assert_eq!(bytes, expected);
}

#[test]
fn false_literal_without_expression_slot_emits_nothing() {
    let mut env = CompilationEnv::new();
    assert!(compile_node(&leaf(NodeKind::BoolLiteralFalse, "false"), &mut env).is_ok());
    env.set_expr_slot(Some(0));
    assert!(compile_node(&leaf(NodeKind::BoolLiteralFalse, "false"), &mut env).is_ok());
    assert!(compile_node(&leaf(NodeKind::IntegerLiteral, "12"), &mut env).is_ok());
    assert!(env.close_env().is_ok());
    let bytes = env.get_bytecode();
    assert_eq!(bytes[12], 2);
    assert_eq!(&bytes[13..17], &[0x2B, 0, 1, 0]);
}

#[test]
fn string_literal_is_interned_without_quotes() {
    let mut env = CompilationEnv::new();
    env.set_expr_slot(Some(0));
    assert!(compile_node(&leaf(NodeKind::StringLiteral, "\"hi\""), &mut env).is_ok());
    assert!(env.close_env().is_ok());
    let bytes = env.get_bytecode();
    let mut expected = HEADER.to_vec();
    let body = vec![0, 0, 0, 0, 1, 0, 2, 0x27, 0, 0, 0, 0x4B, 0, 1, 0, 7, b'h', b'i'];
    expected.push(body.len() as u8);
    expected.extend_from_slice(&body);
    expected.push(0);
    assert_eq!(bytes, expected);
}

#[test]
fn two_calls_to_one_global_intern_its_name_once() {
    let root = list(vec![
        call("print", leaf(NodeKind::StringLiteral, "\"hi\"")),
        call("print", leaf(NodeKind::StringLiteral, "\"hi\"")),
    ]);
    let bytes = compile_lkql_tree(&root).ok().unwrap();
    let mut body = vec![0, 0, 2, 0, 2, 0, 7];
    for _ in 0..2 {
        body.extend_from_slice(&[0x36, 0, 0, 0]); // GGET 0, "print"
        body.extend_from_slice(&[0x27, 1, 1, 0]); // KSTR 1, "hi"
        body.extend_from_slice(&[0x42, 0, 2, 1]); // CALL 0, 1, 2
    }
    body.extend_from_slice(&[0x4B, 0, 1, 0]);
    body.extend_from_slice(&[7, b'h', b'i']);
    body.extend_from_slice(&[10, b'p', b'r', b'i', b'n', b't']);
    let mut expected = HEADER.to_vec();
    expected.push(body.len() as u8);
    expected.extend_from_slice(&body);
    expected.push(0);
    assert_eq!(bytes, expected);
}

#[test]
fn call_result_moves_into_expression_slot() {
    let mut env = CompilationEnv::new();
    env.add_local(String::from("f"));
    let r = env.new_tmp().ok().unwrap();
    env.set_expr_slot(Some(r));
    assert!(compile_node(&call("f", leaf(NodeKind::BoolLiteralTrue, "true")), &mut env).is_ok());
    assert_eq!(env.get_expr_slot(), Some(1));
    assert!(env.close_env().is_ok());
    let bytes = env.get_bytecode();
    // MOV 2 <- 0, KPRI 3 true, CALL 2 1 2, MOV 1 <- 2, RET0
    assert_eq!(bytes[12], 5);
    assert_eq!(&bytes[13..29], &[0x12, 2, 0, 0, 0x2B, 3, 2, 0, 0x42, 2, 2, 1, 0x12, 1, 2, 0]);
}

#[test]
fn unknown_function_is_a_compilation_error() {
    let root = list(vec![call("nope", leaf(NodeKind::BoolLiteralTrue, "true"))]);
    match compile_lkql_tree(&root) {
        Err(e) => assert_eq!(e.kind, ErrorKind::Compilation),
        Ok(_) => panic!("nope is not declared"),
    }
}

#[test]
fn unknown_node_kind_stops_compilation() {
    let root = list(vec![leaf(NodeKind::ListLiteral, "[]")]);
    match compile_lkql_tree(&root) {
        Err(e) => assert_eq!(e.kind, ErrorKind::UnknownNode),
        Ok(_) => panic!("list literals have no rule"),
    }
}

#[test]
fn loading_variables() {
    let mut env = CompilationEnv::new();
    env.add_local(String::from("x"));
    env.set_expr_slot(Some(5));
    assert!(load_var("x", &mut env).is_ok());
    assert_eq!(env.get_expr_slot(), Some(0));
    env.set_expr_slot(Some(5));
    assert!(load_var_copy("x", &mut env).is_ok());
    assert!(load_var("print", &mut env).is_ok());
    let missing: Result<(), LKQLError> = load_var("y", &mut env);
    assert_eq!(missing.err().unwrap().kind, ErrorKind::Compilation);
    assert!(env.close_env().is_ok());
    let bytes = env.get_bytecode();
    // MOV 5 <- 0, GGET 5 "print", RET0
    assert_eq!(bytes[12], 3);
    assert_eq!(&bytes[13..21], &[0x12, 5, 0, 0, 0x36, 5, 0, 0]);
}

#[test]
fn upvalue_read_through_load_var() {
    let mut env = CompilationEnv::new();
    env.add_local(String::from("x"));
    env.open_env(0);
    env.set_expr_slot(Some(0));
    assert!(load_var("x", &mut env).is_ok());
    assert!(env.close_env().is_ok());
    let bytes = env.get_bytecode();
    // UGET 0, upvalue 0
    assert_eq!(&bytes[13..17], &[0x2D, 0, 0, 0]);
}

#[test]
fn buffer_compiles_to_empty_program() {
    assert_eq!(compile_lkql_buffer("print(1)", "main"), vec![0x1B, 0x4C, 0x4A, 0x02, 0x06, 0x00]);
}

#[test]
fn literal_kinds() {
    assert!(node_is_literal(&leaf(NodeKind::StringLiteral, "\"a\"")));
    assert!(node_is_literal(&leaf(NodeKind::NullLiteral, "null")));
    assert!(!node_is_literal(&leaf(NodeKind::FunCall, "f()")));
    assert!(!node_is_literal(&list(Vec::new())));
}

#[test]
fn utf32_text_decoding() {
    assert_eq!(text_to_string(&vec![104, 105, 0xE9]).ok().unwrap(), "hié");
    assert_eq!(text_to_string(&vec![0xD800]).err().unwrap().kind, ErrorKind::Internal);
    assert_eq!(text_to_string(&vec![0x110000]).err().unwrap().kind, ErrorKind::Internal);
}

#[test]
fn malformed_string_literal() {
    let mut env = CompilationEnv::new();
    env.set_expr_slot(Some(0));
    let r = compile_node(&leaf(NodeKind::StringLiteral, "\""), &mut env);
    assert_eq!(r.err().unwrap().kind, ErrorKind::Compilation);
}

#[test]
fn kinds_from_names() {
    assert_eq!(NodeKind::from_name("FunCall"), NodeKind::FunCall);
    assert_eq!(NodeKind::from_name("TopLevelList"), NodeKind::TopLevelList);
    assert_eq!(NodeKind::from_name("BlockStringLiteral"), NodeKind::BlockStringLiteral);
    assert_eq!(NodeKind::from_name("ArgList"), NodeKind::Other);
}

#[test]
fn unresolved_load_names_the_variable_and_changes_nothing() {
    let mut env = CompilationEnv::new();
    env.add_local(String::from("x"));
    // a register read for reading only needs no expression register
    assert!(load_var("x", &mut env).is_ok());
    assert_eq!(env.get_expr_slot(), Some(0));
    env.set_expr_slot(None);
    let e = load_var("missing", &mut env).err().unwrap();
    assert_eq!(e.kind, ErrorKind::Compilation);
    assert_eq!(e.message, "undefined variable: missing");
    assert!(env.close_env().is_ok());
    let bytes = env.get_bytecode();
    // no constant, only the closing return
    assert_eq!(&bytes[10..13], &[0, 0, 1]);
}

#[test]
fn undefined_callee_message() {
    let root = list(vec![call("nope", leaf(NodeKind::BoolLiteralTrue, "true"))]);
    let e = compile_lkql_tree(&root).err().unwrap();
    assert_eq!(e.message, "undefined variable: nope");
}

#[test]
fn failures_reach_the_caller_with_their_messages() {
    let unknown = compile_lkql_tree(&list(vec![leaf(NodeKind::ObjectLiteral, "{}")])).err().unwrap();
    assert_eq!(unknown.message, "unknown node kind, cannot proceed to compilation");
    let bad_call = Node { kind: NodeKind::FunCall, children: vec![leaf(NodeKind::Other, "print")], text: String::new() };
    let malformed = compile_lkql_tree(&list(vec![bad_call])).err().unwrap();
    assert_eq!(malformed.kind, ErrorKind::Compilation);
    assert_eq!(malformed.message, "malformed function call");
    let nested = list(vec![list(vec![call("print", leaf(NodeKind::BoolLiteralTrue, "true")), call("gone", leaf(NodeKind::BoolLiteralTrue, "true"))])]);
    assert_eq!(compile_lkql_tree(&nested).err().unwrap().message, "undefined variable: gone");
}
