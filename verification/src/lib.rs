//! Instrumentation of WebAssembly modules with calls to analysis hooks.
pub mod add_hooks;
pub mod admit_laws;
pub mod ast;
pub mod block_laws;
pub mod block_stack;
pub mod call_laws;
pub mod chunk_lemmas;
pub mod control_laws;
pub mod convert_i64;
pub mod emitter;
pub mod generate_js;
pub mod hook_map;
pub mod laws;
pub mod layout;
pub mod machine;
pub mod machine_lemmas;
pub mod module_laws;
pub mod name_laws;
pub mod ops;
pub mod program;
pub mod program_laws;
pub mod static_info;
pub mod structure_laws;
pub mod test_utilities;
pub mod text;
pub mod text_laws;
pub mod trace;
pub mod type_stack;
pub mod typing;
pub mod variable_laws;
pub mod walk;
