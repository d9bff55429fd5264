//! Scope analysis of Lua programs.
//!
//! The program arrives as its syntax walk: the pre-order sequence of the
//! nodes that bear on scoping (block boundaries, local declarations,
//! function parameters, assignment targets and name reads). The analyser
//! keeps an arena of lexical scopes and records, for every global name,
//! where it is assigned and where it is read.
//!
//! Two scoping decisions hold throughout:
//! - a function body sees the locals of the blocks around it, through the
//!   parent chain of scopes; its parameters are local to its body alone;
//! - the name in a `function name() ... end` declaration is not a global
//!   definition: only assignments to plain names are.
mod analyser;
mod laws;
mod model;
mod walk;

pub use analyser::{
    defs_view, uses_view, Diagnostic, GlobalUsage, LuaAnalyserVisitor, LuaAnalysis, VariableDefinition,
};
pub use laws::{
    ancestor, assignments_to, forest, global_assigns, global_reads, inside, lemma_declared_is_local, lemma_defs_and_uses_separate, lemma_merge_by_name,
    lemma_parameters_are_local, lemma_program_scope_restored, lemma_program_shadowing, lemma_repeated_assignments,
    lemma_reanalysis_agrees, lemma_run_wf, lemma_scope_restored, lemma_shadowing, lemma_step_wf, nesting, stays_inside,
};
pub use model::{
    add_name, add_names, analyse, declare, declare_names, enter, exit, has_name, initial, is_local, merge, model_wf, positions_of,
    report, run, step, unique_names, visible, Analysis, Model, ScopeView,
};
pub use walk::{names_view, AstWalk, Event, EventView, Position};
