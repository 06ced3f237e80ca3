//! A scene database: entities and their components, and their mirror in device memory.
pub mod archetype;
pub mod bundle;
pub mod cell;
pub mod cell_rules;
pub mod change_journal;
pub mod change_tracker;
pub mod component;
pub mod component_methods;
pub mod component_ref;
pub mod entity;
pub mod gpu;
pub mod handle_ledger;
pub mod mut_guard;
pub mod query;
pub mod relation;
pub mod subscriptions;
pub mod text;
pub mod world;
