//! Host-side bridge for running component-model WebAssembly packages on an
//! engine that only executes core modules: package loading, retargeting of
//! generated bindings, and marshalling of declared data shapes.

pub mod package;
pub mod rewrite;
pub mod marshal;
