//! A SubRip text format (`.srt`) linter and parser.
//!
//! The pipeline has two stages: a lexer that turns raw lines into a typed
//! token stream while checking structural and timestamp conventions, and a
//! parser that assembles tokens into subtitle records while checking
//! cross-line consistency and inline markup balance.
pub mod laws;
pub mod lexer;
pub mod logging;
pub mod parser;
pub mod render;
pub mod text;

pub use lexer::LexError;
pub use lexer::Lexer;
pub use lexer::Token;
pub use logging::LogLevel;
pub use parser::Parser;
pub use parser::Subtitle;
pub use render::Pager;
