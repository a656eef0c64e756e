//! Parametric 2-D sketch engine: the document model (points, segments,
//! fills, paths, constraints, dimensions held in generational arenas) and
//! the editing session logic that rewrites it.

pub mod ids;
pub mod float_bits;
pub mod text;
pub mod constraints;
pub mod arena;
pub mod document;
pub mod duplicate;
pub mod editor;
pub mod history;
pub mod delete;
pub mod selection;
pub mod create;
pub mod overconstraint;
pub mod fillet;
pub mod solver;
pub mod clipboard;
pub mod clip_parse;
pub mod clip_laws;
pub mod arc;
pub mod ruler;
pub mod links;
pub mod integrity;
pub mod snap;
pub mod press;
pub mod constraint_tool;
