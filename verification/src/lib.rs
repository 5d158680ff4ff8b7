//! Includes files in text documents.
//!
//! A document marks the places where files go with command blocks: an
//! opening tag, commands with a pipe between each two, and a closing tag.
//! The first command of a begin-block names the file, the others transform
//! its text; an end-block, whose first command is the end command, marks
//! where the included text ends. A parse scans the blocks, pairs each
//! begin-block with an end-block, and puts the transformed text of each file
//! between the two blocks of its pair. The text outside the pairs stays as
//! it is.
//!
//! The library reads no files. Its caller reads the document and the files
//! that `Parser::includes` names, and hands their texts to `Parser::parse`.

pub mod command;
pub mod config;
pub mod grammar;
pub mod laws;
pub mod parse;
pub mod pieces;
pub mod scan;
pub mod syntax;
pub mod text;
pub mod token;
pub mod transform;

pub use crate::command::{Command, CommandSec};
pub use crate::config::{Args, Config, ConfigAndPath, OutputTo};
pub use crate::parse::{ParseError, Parser, ParserConfig};
pub use crate::pieces::escaped;
pub use crate::syntax::CommandTags;
pub use crate::transform::{transform, TransformError};
