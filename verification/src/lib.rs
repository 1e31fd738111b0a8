//! A small tree-manipulating language: programs transform a binary-tree
//! memory through a fixed instruction set (move, create, delete, loop,
//! scoped-root push/pop, early break).
//!
//! The pieces, leaves first: [`MultiTree`] is an arena of nodes with a free
//! list and cascading subtree deletion; a cursor is a scoped, rooted
//! position over one arena; a program is a loop-resolved instruction
//! sequence; a machine executes a program against a cursor; and the
//! meta-decoder reads a fresh machine out of a tree's own data.

mod ast;
mod cursor;
mod meta;
mod tree;
mod vm;

pub use ast::Inst;
pub use ast::ParseError;
pub use ast::Program;
pub use ast::same_shape;
pub use ast::erase_inst;
pub use ast::inst_of_byte;
pub use ast::is_matching_tail;
pub use ast::loop_delta;
pub use ast::lemma_net_one;
pub use ast::lemma_net_prefix_split;
pub use ast::lemma_parse_round_trip;
pub use ast::lemma_same_shape_balance;
pub use ast::lemma_resolve_classification;
pub use ast::lemma_resolve_resolved;
pub use ast::lemma_resolve_round_trip;
pub use ast::loops_balanced;
pub use ast::loops_resolved;
pub use ast::net_opens;
pub use ast::never_drops;
pub use ast::raw_insts;
pub use ast::resolve_rem;
pub use ast::spec_parse;
pub use ast::spec_resolve;
pub use cursor::CursorModel;
pub use cursor::cursor_model_wf;
pub use cursor::TreeCursor;
pub use cursor::ancestor_at;
pub use cursor::boundary_on_chain;
pub use cursor::id_ints;
pub use cursor::lemma_move_up_stays_inside;
pub use cursor::spec_at_root;
pub use cursor::spec_parent;
pub use meta::ParseMetaVMError;
pub use meta::decode_fuel;
pub use meta::decode_insts;
pub use meta::decode_vm;
pub use meta::edges_forward;
pub use meta::opcode_of;
pub use meta::same_subtree;
pub use meta::subtree_fits;
pub use vm::VM;
pub use vm::VMError;
pub use vm::VmModel;
pub use vm::lemma_loop_exits_on_failure;
pub use vm::lemma_loop_repeats_on_success;
pub use vm::lemma_step_never_underflows;
pub use vm::run_model;
pub use vm::vm_loops_inv;
pub use vm::step_model;
pub use vm::vm_model_wf;
pub use tree::MultiTree;
pub use tree::view::TreeView;
pub use tree::view::chain_count_left;
pub use tree::view::chain_count_left_only;
pub use tree::view::chain_count_right;
pub use tree::view::chain_count_right_only;
pub use tree::Node;
pub use tree::NodeId;
pub use tree::NodeModel;
pub use tree::TreeModel;
pub use tree::alloc_model;
pub use tree::alloc_reuse_model;
pub use tree::delete_model;
pub use tree::new_left_model;
pub use tree::new_right_model;
pub use tree::reuse_model;
pub use tree::set_left_model;
pub use tree::set_right_model;
pub use tree::empty_node_model;
pub use tree::free_push;
pub use tree::free_push_opt;
pub use tree::lemma_allocate_grows_only_without_free;
pub use tree::lemma_cascade_delete;
pub use tree::lemma_release_then_allocate_reuses;
pub use tree::node_wf;
pub use tree::tree_model_wf;
pub use tree::oid;
pub use tree::opt_in_bounds;
