//! The compilation rule of each kind of syntax node.
pub mod bool_literal;
pub mod fun_call;
pub mod integer_literal;
pub mod string_literal;
pub mod top_level_list;
