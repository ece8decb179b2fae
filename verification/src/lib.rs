//! froql: a small entity–component store with first class relations.
//!
//! Entities live in a generational arena (`entity_store`), components are kept
//! in archetype tables (`archetype`, `bookkeeping`), relations are stored as
//! small vectors of entity ids (`relation_vec`).
//!
//! Queries are written as terms such as `Unit(a), Attack(a, b), mut Health(b)`.
//! `query_parser` reads one term, `query_terms` turns the terms into a
//! description with numbered variables, `join_order` plans in which order the
//! variables are bound, and `codegen` writes the code of the query from the
//! plan: archetype sets, one state machine step per planned binding
//! (`archetype_start`, `invar_start`, `relation_join`) and the step that hands
//! out a row (`generator_nodes`).
pub mod archetype;
pub mod entity_store;
pub mod component;
pub mod relation_vec;
pub mod relations;
pub mod destroy;
pub mod query_helper;
pub mod consistency;
pub mod layout_vec;
pub mod bitset;
pub mod bookkeeping;
pub mod util;
pub mod query_parser;
pub mod query_terms;
pub mod generator;
pub mod join_order;
pub mod plan_laws;
pub mod text;
pub mod generator_nodes;
pub mod relation_join;
pub mod archetype_start;
pub mod invar_start;
pub mod query_closure;
pub mod invar_captures;
pub mod codegen;
