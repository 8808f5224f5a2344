//! Control-flow structuring for lowered register bytecode.
//!
//! The crate takes a control-flow graph over low-level instructions, derives graph facts
//! (dominators, loops, strongly connected components) and data-flow facts (liveness, SSA
//! values), and groups the blocks into loops, branches and value merges from which
//! structured source can be written out.

pub mod analyze;
pub mod arc_laws;
pub mod binding_laws;
pub mod block_laws;
pub mod branch_laws;
pub mod branch_regions;
pub mod branch_value_laws;
pub mod branch_values;
pub mod branches;
pub mod callee_laws;
pub mod callees;
pub mod cfg;
pub mod claim_laws;
pub mod claims;
pub mod classify;
pub mod collapse;
pub mod completion_laws;
pub mod compute;
pub mod condition_arcs;
pub mod condition_laws;
pub mod condition_safety;
pub mod conditions;
pub mod continuation;
pub mod continuation_laws;
pub mod continue_laws;
pub mod continues;
pub mod copy_laws;
pub mod copy_targets;
pub mod dataflow;
pub mod dataflow_laws;
pub mod debug_bindings;
pub mod dense;
pub mod dfs;
pub mod diagnostic;
pub mod dispositions;
pub mod dominance;
pub mod edge_action_laws;
pub mod edge_actions;
pub mod edge_copies;
pub mod error;
pub mod error_text;
pub mod escape_laws;
pub mod evidence;
pub mod fence_laws;
pub mod fences;
pub mod final_input;
pub mod finalize;
pub mod flood;
pub mod forest;
pub mod forwarding;
pub mod goto_laws;
pub mod gotos;
pub mod graph;
pub mod graph_laws;
pub mod guards;
pub mod helpers;
pub mod ids;
pub mod idset;
pub mod inherit;
pub mod install;
pub mod lir;
pub mod lists;
pub mod loop_candidate_laws;
pub mod loop_candidates;
pub mod loop_exits;
pub mod loop_laws;
pub mod loop_partition;
pub mod loop_refine_laws;
pub mod loop_shape;
pub mod loop_value_laws;
pub mod loop_values;
pub mod loopforest;
pub mod loops;
pub mod moves;
pub mod open_laws;
pub mod open_values;
pub mod owners;
pub mod ownership;
pub mod ownership_laws;
pub mod ownership_text;
pub mod phi_arms;
pub mod plan;
pub mod plan_input_laws;
pub mod plan_text;
pub mod refine;
pub mod region_claims;
pub mod region_text;
pub mod renaming;
pub mod repeats;
pub mod route_laws;
pub mod search;
pub mod selection;
pub mod selection_laws;
pub mod short_order;
pub mod ssa;
pub mod ssa_laws;
pub mod structure_dump;
pub mod structure_plan;
pub mod text;
pub mod tracks;
pub mod tree;
pub mod uses;
pub mod validate;
pub mod value_decision_laws;
pub mod value_decisions;
pub mod value_selection;
pub mod walk;
