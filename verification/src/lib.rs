//! The verified core of the MSBuild structured log viewer: the MSBuild XML
//! lexer (syntax highlighting and navigable tokens), the semantic index
//! that joins tokens to a build's recorded import edges, and the models
//! behind the viewer's panes.

pub mod automation;
pub mod demo;
pub mod engine;
pub mod favorites;
pub mod files;
pub mod inspector;
pub mod interop;
pub mod line_paint;
pub mod model;
pub mod search;
pub mod source;
pub mod styling;
pub mod msbuild;
pub mod text;
pub mod timeline;
pub mod tree;
pub mod tree_view;
pub mod workspace;
