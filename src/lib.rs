//! Composition layer for immediate-mode GUI nodes inside a dataflow graph:
//! variable binding checks, lifecycle of nodes, the stack of active drawing
//! surfaces, and a per-frame memo cache for styled text layout.
#![allow(non_snake_case)]

pub mod ids;
pub mod types;
pub mod binding;
pub mod parent_stack;
pub mod layout;
pub mod console;
pub mod syntax_highlighting;
pub mod cache;
pub mod nodes;
pub mod graph;
pub mod lifecycle;
pub mod registry;
pub mod gui;
pub mod containers;
