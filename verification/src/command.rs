//! Request and response shapes of the wire protocol.
//!
//! A client sends one `Command` per line; the server answers each with one
//! `Response` carrying the same correlation id.

use vstd::prelude::*;

verus! {

/// What a command asks for: one level of directory listing, or one
/// fixed-size chunk of a file, addressed by its zero-based part index.
#[derive(Clone, Copy, Debug, PartialEq, Eq, Structural)]
pub enum Question {
    FolderInfo,
    Download(usize),
}

/// One client request: a client-chosen correlation id, a filesystem path
/// (resolved relative to the server's working directory), and the question.
#[derive(Debug)]
pub struct Command {
    pub id: usize,
    pub path: String,
    pub ask: Question,
}

/// Mathematical model of a `Command`: the path as its character sequence.
pub struct CommandModel {
    pub id: usize,
    pub path: Seq<char>,
    pub ask: Question,
}

impl View for Command {
    type V = CommandModel;

    open spec fn view(&self) -> CommandModel {
        CommandModel { id: self.id, path: self.path@, ask: self.ask }
    }
}

/// One server reply: `to_id` echoes the id of the command it answers,
/// `response` is the payload (a `Directory` or a chunk of bytes).
#[derive(Debug)]
pub struct Response<T> {
    pub to_id: usize,
    pub response: T,
}

} // verus!
