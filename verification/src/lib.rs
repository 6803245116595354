//! Renders Mermaid flowcharts as Unicode box-drawing text.
pub mod text;
pub mod style;
pub mod graph;
pub mod parser;
pub mod layout;
pub mod render;
pub mod settings;
