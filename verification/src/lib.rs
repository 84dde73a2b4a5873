pub mod commands;
pub mod curses;
pub mod events;
pub mod finder;
pub mod interface;
pub mod matcher;
pub mod reader;
pub mod tldr;
