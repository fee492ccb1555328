//! Navigable dependency trees for the terminal.
//!
//! A resolved dependency graph ([`graph`]) is unfolded ([`builder`]) into an
//! arena-backed forest ([`dependency`]); [`unfolded`] says which node of it
//! stands for which package. A navigation state ([`state`])
//! tracks which nodes are expanded, which node is selected and what a search
//! has found, over the sequence of nodes that are on display ([`visible`]).
//! The render projection ([`viewport`], [`lineage`], [`breadcrumb`],
//! [`render`]) turns both into the window of styled lines ([`style`]) that a
//! terminal of a given size shows, and [`tui`] maps key presses to
//! operations.
//!
//! Reading the graph from the build tool and drawing the lines on a terminal
//! are left to the caller.

pub mod breadcrumb;
pub mod builder;
pub mod dependency;
mod fxmap;
pub mod graph;
pub mod lineage;
pub mod render;
pub mod state;
pub mod style;
pub mod text;
pub mod tui;
pub mod unfolded;
pub mod viewport;
pub mod visible;
