//! Composition of server-side Lua script fragments into one atomic script.
//!
//! A fragment ([`Info`]) declares its own ordered local arguments. Fragments
//! are joined into an execution unit ([`Script`]), whose fragments are turned
//! into one script text ([`gen_script`]) that reads every argument from a
//! single flattened positional array. A builder ([`Chain`]) binds the
//! arguments one at a time in declared order; only a fully bound chain becomes
//! an invocable unit.
//!
//! The binding order is held by contracts rather than by one type per step:
//! [`Chain::bind`] asks for a slot that still waits, and [`Chain::finish`]
//! asks that none waits, so verified callers cannot bind out of order or
//! invoke early. Unverified callers test [`Chain::is_bound`] first.

mod chain;
mod fragment;
mod laws;
mod synth;
mod unit;

pub use chain::{
    all_bound, bind_all, bind_next, lemma_bind_all, lemma_bound_when_filled, next_slot, pending,
    prepare, rank, Chain, TakeScript, Unit,
};
pub use fragment::Info;
pub use laws::{
    lemma_argument_positions, lemma_binding_order, lemma_copies_independent,
    lemma_join_associative, lemma_join_identity, lemma_only_last_returns, lemma_single_fragment,
};
pub use synth::{
    arg_offset, binding, bindings, decimal, digit_char, gen_script, lemma_total_args_concat, scope,
    scope_of, script_text, total_args,
};
pub use unit::{join, Script, ScriptJoin};

