//! A build orchestrator for Magento: a graph of steps, run in parallel in the
//! order of its edges.
//!
//! - [`graph`] has the nodes and what they do; [`order`], [`waves`] and [`reach`]
//!   have its order, its parallel schedule and what a node needs; [`laws`] relates
//!   these, and [`planning`] says what they mean for ids and edges.
//! - [`config`] lays presets ([`preset`]), a settings file and a command line over
//!   the built-in graph; [`precedence`] says which of them wins, [`tuning`] what
//!   becomes of every field, and [`theming`] what a preset makes of a graph.
//! - [`run`] is the state machine of a run, [`queueing`] says in which order nodes come
//!   to be ready, and [`history`] what holds of whole runs; [`scheduler`] is the
//!   bounded ready-queue scheduler.
//! - [`steps`] decides what running a node amounts to, and [`acting`] says what of the
//!   node that carries; [`excludes`] and [`walk`] decide what goes into an archive,
//!   [`visiting`] says so entry by entry and line by line, and [`journey`] and
//!   [`packing`] say what holds of whole walks and of archives.
//! - [`session`] and [`preflight`] go from a command line to a run; [`render`] and
//!   [`json`] show plans and results, [`reporting`] and [`wording`] say what is shown
//!   of them, and [`reading`], [`layout`] and [`printing`] what printed JSON means and
//!   how it looks.
//! - [`text`], [`textmap`] and [`path`] have the text functions that all of these
//!   use, and [`textual`] says what holds of them; [`views`] says what the models show
//!   of the values that they stand for.
use vstd::prelude::*;

pub mod acting;
pub mod config;
pub mod excludes;
pub mod graph;
pub mod history;
pub mod journey;
pub mod json;
pub mod laws;
pub mod layout;
pub mod order;
pub mod packing;
pub mod path;
pub mod planning;
pub mod precedence;
pub mod preflight;
pub mod preset;
pub mod printing;
pub mod queueing;
pub mod reach;
pub mod reading;
pub mod render;
pub mod reporting;
pub mod run;
pub mod scheduler;
pub mod session;
pub mod steps;
pub mod text;
pub mod textmap;
pub mod textual;
pub mod theming;
pub mod tuning;
pub mod views;
pub mod visiting;
pub mod walk;
pub mod waves;
pub mod wording;

verus! {

} // verus!
