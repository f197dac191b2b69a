//! What the next action works out before it looks through the log files: the log file's
//! absolute path, and the directory that holds the cursor.

use vstd::prelude::*;
use vstd::utf8::encode_utf8;
use crate::digest::{sha1_digest, sha1_hex};
use crate::text::spec_hex;
use crate::utils::{normalize_path, spec_is_absolute, spec_normalize_path};

verus! {

/// `Couldn't normalize path for '<name>': <error>.`
pub open spec fn normalize_error(file_name: Seq<char>, e: Seq<char>) -> Seq<char> {
    "Couldn't normalize path for '"@ + file_name + "': "@ + e + "."@
}

/// The current directory (or the error getting it), as a model.
pub open spec fn dir_view(current_dir: Option<Result<String, String>>) -> Option<Result<Seq<char>, Seq<char>>> {
    match current_dir {
        Some(Ok(c)) => Some(Ok(c@)),
        Some(Err(e)) => Some(Err(e@)),
        None => None,
    }
}

/// The log file's normalized absolute path, or why it could not be had.
pub open spec fn spec_log_file_path(
    file_name: Seq<char>,
    current_dir: Option<Result<Seq<char>, Seq<char>>>,
) -> Result<Seq<char>, Seq<char>> {
    match spec_normalize_path(file_name, current_dir) {
        Ok(p) => Ok(p),
        Err(e) => Err(normalize_error(file_name, e)),
    }
}

/// The log file's normalized absolute path; a relative name is taken from the current
/// directory (`current_dir`, needed only then).
pub fn log_file_path(file_name: &str, current_dir: Option<Result<String, String>>) -> (r: Result<String, String>)
    requires
        !spec_is_absolute(file_name@) ==> current_dir is Some,
    ensures
        match (r, spec_log_file_path(file_name@, dir_view(current_dir))) {
            (Ok(a), Ok(b)) => a@ == b,
            (Err(a), Err(b)) => a@ == b,
            _ => false,
        },
{
    match normalize_path(file_name, current_dir) {
        Ok(p) => Ok(p),
        Err(e) => {
            let mut msg = "Couldn't normalize path for '".to_owned();
            msg.append(file_name);
            msg.append("': ");
            msg.append(e.as_str());
            msg.append(".");
            Err(msg)
        },
    }
}

/// `No such file as '<path>'.`
pub open spec fn spec_missing_file_message(path: Seq<char>) -> Seq<char> {
    "No such file as '"@ + path + "'."@
}

/// The error given where the log file does not exist.
pub fn missing_file_message(path: &str) -> (r: String)
    ensures
        r@ == spec_missing_file_message(path@),
{
    let mut msg = "No such file as '".to_owned();
    msg.append(path);
    msg.append("'.");
    msg
}

/// The directory under which cursors are kept: the configured one where there is one,
/// else `/var/spool/<executable name>`.
pub open spec fn spec_chunk_state_dir(configured: Option<Seq<char>>, exe_name: Seq<char>) -> Seq<char> {
    match configured {
        Some(d) => d,
        None => "/var/spool/"@ + exe_name,
    }
}

/// The directory under which cursors are kept.
pub fn chunk_state_dir(configured: Option<String>, exe_name: &str) -> (r: String)
    ensures
        r@ == spec_chunk_state_dir(
            match configured {
                Some(d) => Some(d@),
                None => None,
            },
            exe_name@,
        ),
{
    match configured {
        Some(d) => d,
        None => {
            let mut dir = "/var/spool/".to_owned();
            dir.append(exe_name);
            dir
        },
    }
}

/// The directory of one cursor of one log file:
/// `<state dir>/<SHA-1 of the log file's path, in hexadecimal>/<cursor name>`.
pub open spec fn spec_cursor_state_dir(state_dir: Seq<char>, log_path: Seq<char>, cursor_name: Seq<char>) -> Seq<char> {
    state_dir + "/"@ + spec_hex(sha1_digest(encode_utf8(log_path))) + "/"@ + cursor_name
}

/// The directory of the cursor named `cursor_name` of the log file at `log_path`.
pub fn cursor_state_dir(state_dir: &str, log_path: &str, cursor_name: &str) -> (r: String)
    ensures
        r@ == spec_cursor_state_dir(state_dir@, log_path@, cursor_name@),
{
    let digest = sha1_hex(log_path.as_bytes());
    let mut dir = state_dir.to_owned();
    dir.append("/");
    dir.append(digest.as_str());
    dir.append("/");
    dir.append(cursor_name);
    dir
}

} // verus!
