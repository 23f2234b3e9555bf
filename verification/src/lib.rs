//! Core logic of a grid-based stealth game built around time replay:
//! a run-length-compressed frame history store, an auto-expanding
//! occluder grid with corner extraction, an exact fixed-point raycaster
//! and visibility tracer, and the paradox (replay consistency) evaluator.

pub mod area;
pub mod corner;
pub mod entities;
pub mod geometry;
pub mod grid;
pub mod history;
pub mod light;
pub mod raycast;
pub mod replay;
pub mod small_map;
pub mod wire;
