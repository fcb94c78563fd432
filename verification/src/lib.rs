//! A static-site build pipeline: entries written in Djot or CommonMark are turned into
//! HTML pages.
//!
//! The heart of the library is the rendering of markup. A parser's events are adapted
//! to an intermediate representation ([`ir_markup`]) by [`djot`] or [`markdown`],
//! rewritten by the passes of [`passes`] and [`figure`], and written out as HTML by
//! [`writer`]. [`links`] takes the title out of a document and resolves links between
//! entries; [`render`] puts the steps together. [`laws`] and [`tags`] hold what is known
//! of the writer's output.
//!
//! Every function is verified against its contract. What is taken on trust of the
//! crates that the library calls is stated at the few functions that call them.

pub mod attributes;
pub mod bits;
pub mod cli;
pub mod config;
pub mod ctx;
pub mod djot;
pub mod entry;
pub mod figure;
pub mod front_matter;
pub mod groups;
pub mod highlight;
pub mod images;
pub mod ir_markup;
pub mod laws;
pub mod links;
pub mod markdown;
pub mod markup;
pub mod math;
pub mod order;
pub mod passes;
pub mod render;
pub mod span;
pub mod table;
pub mod tags;
pub mod text;
pub mod types;
pub mod utils;
pub mod writer;
