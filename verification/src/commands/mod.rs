//! The commands: what each one asks for and what it answers.

pub mod glob;
pub mod grep;
pub mod mcp;
