use vstd::prelude::*;

pub mod strings;
pub mod assoc;
pub mod types;
pub mod execution_order;
pub mod values;
pub mod maps;
pub mod components;
pub mod memory;
pub mod modules;
pub mod registry;
pub mod port_validator;
pub mod connections;
pub mod manager;
pub mod traits;
pub mod builder;
pub mod proxy;
pub mod config;
pub mod events;
pub mod contexts;
pub mod engine;
pub mod simulation;
pub mod dependency_graph;
pub mod typed_engine;

verus! {
} // verus!
