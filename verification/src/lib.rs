//! A memory-keeping chat agent: the chat API's message types, long-term
//! memories recalled by keyword overlap, a bounded history of recent turns
//! with a running summary of older ones, the context sent with each request
//! trimmed to a character budget, and the decoding of streamed replies.

pub mod agent;
pub mod context;
pub mod model;
pub mod recall;
pub mod session;
pub mod stream;
pub mod text;
pub mod trusted;

pub use agent::{AgentState, MemoryConfig};
pub use context::{summarize_messages, text_message, total_chars, trim_by_chars};
pub use model::{ChatResponse, Choice, FunctionCall, FunctionDef, Message, Tool, ToolCall};
pub use recall::keywords;
pub use session::{parse_command, session_dir_name, Command};
pub use stream::{handle_stream_line, StreamDecoder, StreamError};
