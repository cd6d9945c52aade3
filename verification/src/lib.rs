//! Turns a caption track into a summarisation prompt and reads the answer of a
//! chat-completion service.

pub mod budget;
pub mod captions;
pub mod completion;
pub mod formatter;
pub mod pipeline;
pub mod prompt;
pub mod second_pass;
pub mod text;
