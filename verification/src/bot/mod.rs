//! Discord-facing logic: message chunking, embeds, buttons, commands and
//! the decisions taken while answering an interaction.

pub mod commands;
pub mod handler;
pub mod render;
