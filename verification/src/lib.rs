//! A small task-list library: an ordered store of text tasks with a
//! completed flag, commands to mutate it, and codecs that turn it into a
//! durable text representation and a human-readable markdown export.

pub mod task;
pub mod text;
pub mod store;
pub mod codec;
pub mod markdown;

pub use store::help;
pub use store::Todo;
pub use store::TodoError;
pub use task::TodoItem;
