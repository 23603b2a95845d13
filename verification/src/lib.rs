//! The verified core of a self-hostable Minecraft mod mirror and pack
//! registry: the decisions its HTTP endpoints make, the text it writes out,
//! the order it lists things in, and the state of a build job, each stated
//! and proved.

pub mod admin;
pub mod authored;
pub mod cache;
pub mod error;
pub mod events;
pub mod github;
pub mod graph;
pub mod jobs;
pub mod json;
pub mod notes;
pub mod number;
pub mod order;
pub mod public;
pub mod queries;
pub mod releases;
pub mod revision;
pub mod text;
pub mod textmap;
