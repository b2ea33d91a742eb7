//! The per-connection dispatcher: what the server does with one request
//! line, and what it writes back.
//!
//! The connection loop outside the library reads a line, asks `plan_line`
//! what to do, performs the one filesystem action the step names, wraps the
//! outcome with the matching reply builder, encodes it and writes it back
//! before reading the next line — so replies leave in exactly the order
//! their requests came, each carrying its request's id. A line that is not
//! a well-formed command closes the connection, as does any filesystem
//! failure; both are contained to the one connection.

use vstd::prelude::*;
use crate::command::{CommandModel, Question, Response};
use crate::folder_info::Directory;
use crate::codec::decode_command;
use crate::wire::{dec_command, enc_command, lemma_command_round_trip};

verus! {

/// What one request line asks the connection to do.
pub enum Step {
    /// List one level of `path` and reply under `id`.
    FolderQuery { id: usize, path: String },
    /// Read part `part` of the file at `path` and reply under `id`.
    DownloadQuery { id: usize, path: String, part: usize },
    /// The line is not a command: close the connection.
    Close,
}

/// Decides one request line: the dispatch step is exactly what the decoded
/// command asks, and any undecodable line closes the connection.
pub fn plan_line(line: &str) -> (s: Step)
    ensures
        match dec_command(line@) {
            None => s is Close,
            Some(c) => match c.ask {
                Question::FolderInfo => s matches Step::FolderQuery { id, path } && id == c.id
                    && path@ == c.path,
                Question::Download(p) => s matches Step::DownloadQuery { id, path, part } && id
                    == c.id && path@ == c.path && part == p,
            },
        },
{
    match decode_command(line) {
        None => Step::Close,
        Some(c) => match c.ask {
            Question::FolderInfo => Step::FolderQuery { id: c.id, path: c.path },
            Question::Download(part) => Step::DownloadQuery { id: c.id, path: c.path, part },
        },
    }
}

/// Wraps a listing under the id of the request it answers.
pub fn folder_reply(id: usize, dir: Directory) -> (r: Response<Directory>)
    ensures
        r.to_id == id,
        r.response@ == dir@,
{
    Response { to_id: id, response: dir }
}

/// Wraps a chunk of bytes under the id of the request it answers.
pub fn download_reply(id: usize, data: Vec<u8>) -> (r: Response<Vec<u8>>)
    ensures
        r.to_id == id,
        r.response@ == data@,
{
    Response { to_id: id, response: data }
}

/// The ids a connection echoes for a sequence of request lines, in the
/// order it answers them: one per line, until the first line that is no
/// command, which closes the connection.
pub open spec fn session_to_ids(lines: Seq<Seq<char>>) -> Seq<usize>
    decreases lines.len(),
{
    if lines.len() == 0 {
        Seq::empty()
    } else {
        match dec_command(lines[0]) {
            None => Seq::empty(),
            Some(c) => seq![c.id] + session_to_ids(lines.drop_first()),
        }
    }
}

/// Law: requests sent in order on one connection are answered in order.
/// For any lines that write a sequence of commands, one per line, the ids
/// the connection echoes are exactly the commands' ids, in the same order.
pub proof fn lemma_order_preservation(cs: Seq<CommandModel>, lines: Seq<Seq<char>>)
    requires
        lines.len() == cs.len(),
        forall|k: int| 0 <= k < cs.len() ==> lines[k] == enc_command(cs[k]),
    ensures
        session_to_ids(lines) == cs.map_values(|c: CommandModel| c.id),
    decreases cs.len(),
{
    let ids = cs.map_values(|c: CommandModel| c.id);
    if cs.len() == 0 {
        assert(session_to_ids(lines) =~= ids);
    } else {
        lemma_command_round_trip(cs[0]);
        assert(dec_command(lines[0]) == Some(cs[0]));
        assert(cs.drop_first().len() == lines.drop_first().len());
        assert forall|k: int| 0 <= k < cs.drop_first().len() implies lines.drop_first()[k]
            == enc_command(cs.drop_first()[k]) by {
            assert(lines[k + 1] == enc_command(cs[k + 1]));
        }
        lemma_order_preservation(cs.drop_first(), lines.drop_first());
        assert(session_to_ids(lines) =~= ids);
    }
}

} // verus!
