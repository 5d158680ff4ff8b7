//! Commands and command blocks as values that borrow from the document.

use crate::text::{byte_len, utf8, utf8_all};
use vstd::prelude::*;

verus! {

/// What a command says: its name and its arguments, as bytes.
pub struct CommandView {
    pub name: Seq<u8>,
    pub args: Seq<Seq<u8>>,
}

/// One command of a block: a name and its arguments.
#[derive(Debug, Clone, PartialEq)]
pub struct Command<'a> {
    pub command: &'a str,
    pub args: Vec<&'a str>,
}

impl<'a> View for Command<'a> {
    type V = CommandView;

    open spec fn view(&self) -> CommandView {
        CommandView { name: utf8(self.command@), args: utf8_all(self.args@) }
    }
}

impl<'a> Command<'a> {
    pub fn new(command: &'a str, args: Vec<&'a str>) -> (r: Self)
        ensures
            r.command == command,
            r.args == args,
    {
        Self { command, args }
    }
}

/// What a list of commands says.
pub open spec fn command_views(v: Seq<Command<'_>>) -> Seq<CommandView> {
    Seq::new(v.len(), |i: int| v[i]@)
}

/// A scanned command block: its commands, and how many bytes of the
/// document were left at its first byte and after its last.
#[derive(Debug, Clone, PartialEq)]
pub struct CommandSec<'a> {
    pub commands: Vec<Command<'a>>,
    pub start_remaining: usize,
    pub end_remaining: usize,
}

impl CommandSec<'_> {
    /// The offset of the block's first byte in `input`.
    pub fn start(&self, input: &str) -> (r: usize)
        requires
            self.start_remaining <= utf8(input@).len(),
        ensures
            r == utf8(input@).len() - self.start_remaining,
    {
        byte_len(input) - self.start_remaining
    }

    /// The offset in `input` of the byte after the block's last.
    pub fn end(&self, input: &str) -> (r: usize)
        requires
            self.end_remaining <= utf8(input@).len(),
        ensures
            r == utf8(input@).len() - self.end_remaining,
    {
        byte_len(input) - self.end_remaining
    }
}

} // verus!
