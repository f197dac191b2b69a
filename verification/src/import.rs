//! Checking one chunk of an rsync daemon log and summing it up.
//!
//! A chunk starts with a `receiving file list` line and runs, line by line, through
//! file changes up to a closing line: the transfer totals, a signal, or a closed
//! connection followed by an `rsync error` line.  `ChunkParser` takes the lines one at a
//! time; `load_iter` runs it over a whole sequence of lines.

use vstd::prelude::*;
use vstd::string::*;
use crate::digest::sha1_digest;
use crate::text::spec_hex;
use crate::clock::{log_datetime_timestamp, parse_log_datetime, result_view};
use crate::pattern::{captures, compile, get_group, group, regex_captures, regex_new_result, Pattern};
use vstd::utf8::{decode_utf8, valid_utf8};
use crate::text::{lossy_string, push_hex_byte, spec_hex_byte, string_of, utf8_lossy, utf8_string, debug_str, int_error_string, int_error_text, parse_i64_str, spec_parse_i64, str_debug, IntErrorKind};

verus! {

/// The chunk was not closed (yet).
pub const ERR_CHUNK_INCOMPLETE: u8 = 0b0000_0001;
/// No start line was seen (yet).
pub const ERR_CHUNK_NO_START: u8 = 0b0000_0010;
/// The connection closed unexpectedly.
pub const ERR_CONNECTION_CLOSED: u8 = 0b0000_0100;
/// The connection closed unexpectedly and its `rsync error` line has not come yet.
pub const ERR_CONNECTION_CLOSED_WITOUT_FOLLOW_UP: u8 = 0b0000_1000;
/// The daemon received a signal.
pub const ERR_SIGNAL_RECEIVED: u8 = 0b0001_0000;

/// The first line of a chunk.
pub const START_LINE: &'static str = r"^(\d{4}/\d{2}/\d{2} \d{2}:\d{2}:\d{2}) \[(\d+)\] receiving file list$";
/// The line with the transfer totals that closes a chunk.
pub const END_LINE: &'static str = r"^(\d{4}/\d{2}/\d{2} \d{2}:\d{2}:\d{2}) \[(\d+)\] sent (\d+) bytes\s+received (\d+) bytes\s+total size (\d+)$";
/// A received or deleted file.
pub const FILE_CHANGE_LINE: &'static str = r"^(\d{4}/\d{2}/\d{2} \d{2}:\d{2}:\d{2}) \[(\d+)\] ([>.ch][L.dfsctp+]+ recv|\*deleting   del.) .* (\d+) (\d+)$";
/// An unexpectedly closed connection.
pub const CONNECTION_CLOSED_LINE: &'static str = r"^(\d{4}/\d{2}/\d{2} \d{2}:\d{2}:\d{2}) \[(\d+)\] rsync: connection unexpectedly closed \((\d+) bytes received so far\) \[generator\]$";
/// The `rsync error` line that follows a closed connection.
pub const FOLLOW_UP_LINE: &'static str = r"^(\d{4}/\d{2}/\d{2} \d{2}:\d{2}:\d{2}) \[(\d+)\] rsync error: (.*)$";
/// A received signal.
pub const SIGNAL_LINE: &'static str = r"^(\d{4}/\d{2}/\d{2} \d{2}:\d{2}:\d{2}) \[(\d+)\] rsync error: received SIGINT, SIGTERM, or SIGHUP.*$";

/// The summary of a chunk, as it goes into the database.
#[derive(Debug, Clone, PartialEq, Eq)]
pub struct RsyncLog {
    pub label: String,
    pub start_time: i64,
    pub end_time: i64,
    pub total_bytes_sync: i64,
    pub total_bytes_sent: i64,
    pub total_bytes_sync_final: i64,
    pub total_bytes_sent_final: i64,
    pub num_files_changed: i64,
    pub chunk_parse_error: u8,
}

/// The mathematical value of an `RsyncLog`.
pub struct RsyncLogModel {
    pub label: Seq<char>,
    pub start_time: i64,
    pub end_time: i64,
    pub total_bytes_sync: i64,
    pub total_bytes_sent: i64,
    pub total_bytes_sync_final: i64,
    pub total_bytes_sent_final: i64,
    pub num_files_changed: i64,
    pub chunk_parse_error: u8,
}

impl View for RsyncLog {
    type V = RsyncLogModel;

    open spec fn view(&self) -> RsyncLogModel {
        RsyncLogModel {
            label: self.label@,
            start_time: self.start_time,
            end_time: self.end_time,
            total_bytes_sync: self.total_bytes_sync,
            total_bytes_sent: self.total_bytes_sent,
            total_bytes_sync_final: self.total_bytes_sync_final,
            total_bytes_sent_final: self.total_bytes_sent_final,
            num_files_changed: self.num_files_changed,
            chunk_parse_error: self.chunk_parse_error,
        }
    }
}

/// What is known of a chunk after its start line and the lines since.
pub struct ChunkModel {
    pub start_time: i64,
    pub pid: Seq<char>,
    pub end_time: Option<i64>,
    pub total_bytes_sync: i64,
    pub total_bytes_sent: i64,
    pub total_bytes_sync_final: i64,
    pub total_bytes_sent_final: i64,
    pub num_files_changed: i64,
    pub chunk_parse_error: u8,
}

/// The state of a chunk being read.
pub struct ChunkState {
    pub start_time: i64,
    pub pid: String,
    pub end_time: Option<i64>,
    pub total_bytes_sync: i64,
    pub total_bytes_sent: i64,
    pub total_bytes_sync_final: i64,
    pub total_bytes_sent_final: i64,
    pub num_files_changed: i64,
    pub chunk_parse_error: u8,
}

impl View for ChunkState {
    type V = ChunkModel;

    open spec fn view(&self) -> ChunkModel {
        ChunkModel {
            start_time: self.start_time,
            pid: self.pid@,
            end_time: self.end_time,
            total_bytes_sync: self.total_bytes_sync,
            total_bytes_sent: self.total_bytes_sent,
            total_bytes_sync_final: self.total_bytes_sync_final,
            total_bytes_sent_final: self.total_bytes_sent_final,
            num_files_changed: self.num_files_changed,
            chunk_parse_error: self.chunk_parse_error,
        }
    }
}

/// The outcome of reading one more line: the next state, the error the chunk is
/// refused with, or `Panic` where the reading would abort (an `i64` total overflows,
/// or a capture group that the pattern always fills is missing).
pub enum Step {
    Next(ChunkModel),
    Fail(Seq<char>),
    Panic,
}

/// `Failed to parse "<d>" as a date (<e>) on <place>`.
pub open spec fn date_error(d: Seq<char>, e: Seq<char>, place: Seq<char>) -> Seq<char> {
    "Failed to parse "@ + str_debug(d) + " as a date ("@ + e + ") on "@ + place
}

/// `Failed to parse <what> "<n>" as an i64 integer (<error>) on <place>`.
pub open spec fn int_error(what: Seq<char>, n: Seq<char>, k: IntErrorKind, place: Seq<char>) -> Seq<char> {
    "Failed to parse "@ + what + " "@ + str_debug(n) + " as an i64 integer ("@ + int_error_text(k) + ") on "@ + place
}

/// `Unexpected PID change from <old> to <new> on <place>`.
pub open spec fn pid_error(old: Seq<char>, new: Seq<char>, place: Seq<char>) -> Seq<char> {
    "Unexpected PID change from "@ + old + " to "@ + new + " on "@ + place
}

/// Whether `v` is in the `i64` range.
pub open spec fn fits_i64(v: int) -> bool {
    i64::MIN <= v <= i64::MAX
}

/// Reading the first line of a chunk: it must be a start line, whose date and pid
/// open the chunk.
pub open spec fn first_line_step(line: Seq<char>) -> Step {
    match regex_captures(START_LINE@, line) {
        None => Step::Fail("Unexpected start line format"@),
        Some(caps) => match group(caps, 1) {
            None => Step::Panic,
            Some(d) => match log_datetime_timestamp(d) {
                Err(e) => Step::Fail(date_error(d, e, "first chunk line"@)),
                Ok(t) => match group(caps, 2) {
                    None => Step::Panic,
                    Some(pid) => Step::Next(
                        ChunkModel {
                            start_time: t,
                            pid,
                            end_time: None,
                            total_bytes_sync: 0,
                            total_bytes_sent: 0,
                            total_bytes_sync_final: 0,
                            total_bytes_sent_final: 0,
                            num_files_changed: 0,
                            chunk_parse_error: ERR_CHUNK_INCOMPLETE,
                        },
                    ),
                },
            },
        },
    }
}

/// A line with the transfer totals: same pid, its date ends the chunk, and the
/// total size and received count become the final figures.
pub open spec fn end_line_step(m: ChunkModel, caps: Seq<Option<Seq<char>>>) -> Step {
    let place = "last chunk line"@;
    match group(caps, 2) {
        None => Step::Panic,
        Some(p) => if m.pid != p {
            Step::Fail(pid_error(m.pid, p, place))
        } else {
            match group(caps, 1) {
                None => Step::Panic,
                Some(d) => match log_datetime_timestamp(d) {
                    Err(e) => Step::Fail(date_error(d, e, place)),
                    Ok(t) => match group(caps, 5) {
                        None => Step::Panic,
                        Some(n5) => match spec_parse_i64(n5) {
                            Err(k) => Step::Fail(int_error("total count"@, n5, k, place)),
                            Ok(v5) => match group(caps, 4) {
                                None => Step::Panic,
                                Some(n4) => match spec_parse_i64(n4) {
                                    Err(k) => Step::Fail(int_error("received count"@, n4, k, place)),
                                    Ok(v4) => Step::Next(
                                        ChunkModel {
                                            end_time: Some(t),
                                            total_bytes_sync_final: v5,
                                            total_bytes_sent_final: v4,
                                            chunk_parse_error: m.chunk_parse_error & !ERR_CHUNK_INCOMPLETE,
                                            ..m
                                        },
                                    ),
                                },
                            },
                        },
                    },
                },
            }
        },
    }
}

/// A file-change line: same pid, its sizes add to the totals, its date is the latest
/// end, and one more file changed.
pub open spec fn file_change_step(m: ChunkModel, caps: Seq<Option<Seq<char>>>) -> Step {
    let place = "file change line"@;
    match group(caps, 2) {
        None => Step::Panic,
        Some(p) => if m.pid != p {
            Step::Fail(pid_error(m.pid, p, place))
        } else {
            match group(caps, 4) {
                None => Step::Panic,
                Some(n4) => match spec_parse_i64(n4) {
                    Err(k) => Step::Fail(int_error("file size"@, n4, k, place)),
                    Ok(v4) => if !fits_i64(m.total_bytes_sync + v4) {
                        Step::Panic
                    } else {
                        match group(caps, 5) {
                            None => Step::Panic,
                            Some(n5) => match spec_parse_i64(n5) {
                                Err(k) => Step::Fail(int_error("sent size"@, n5, k, place)),
                                Ok(v5) => if !fits_i64(m.total_bytes_sent + v5) {
                                    Step::Panic
                                } else {
                                    match group(caps, 1) {
                                        None => Step::Panic,
                                        Some(d) => match log_datetime_timestamp(d) {
                                            Err(e) => Step::Fail(date_error(d, e, place)),
                                            Ok(t) => if !fits_i64(m.num_files_changed + 1) {
                                                Step::Panic
                                            } else {
                                                Step::Next(
                                                    ChunkModel {
                                                        total_bytes_sync: (m.total_bytes_sync + v4) as i64,
                                                        total_bytes_sent: (m.total_bytes_sent + v5) as i64,
                                                        end_time: Some(t),
                                                        num_files_changed: (m.num_files_changed + 1) as i64,
                                                        ..m
                                                    },
                                                )
                                            },
                                        },
                                    }
                                },
                            },
                        }
                    },
                },
            }
        },
    }
}

/// An unexpectedly closed connection: same pid, its date is the latest end, the count
/// received so far is the final sent figure, and a follow-up line must come next.
pub open spec fn connection_closed_step(m: ChunkModel, caps: Seq<Option<Seq<char>>>) -> Step {
    let place = "connection closed line"@;
    match group(caps, 2) {
        None => Step::Panic,
        Some(p) => if m.pid != p {
            Step::Fail(pid_error(m.pid, p, place))
        } else {
            match group(caps, 1) {
                None => Step::Panic,
                Some(d) => match log_datetime_timestamp(d) {
                    Err(e) => Step::Fail(date_error(d, e, place)),
                    Ok(t) => match group(caps, 3) {
                        None => Step::Panic,
                        Some(n3) => match spec_parse_i64(n3) {
                            Err(k) => Step::Fail(int_error("transfered count"@, n3, k, place)),
                            Ok(v3) => Step::Next(
                                ChunkModel {
                                    end_time: Some(t),
                                    total_bytes_sent_final: v3,
                                    chunk_parse_error: m.chunk_parse_error | (ERR_CONNECTION_CLOSED
                                        | ERR_CONNECTION_CLOSED_WITOUT_FOLLOW_UP),
                                    ..m
                                },
                            ),
                        },
                    },
                },
            }
        },
    }
}

/// A received signal: same pid, its date ends the chunk.
pub open spec fn signal_step(m: ChunkModel, caps: Seq<Option<Seq<char>>>) -> Step {
    let place = "signal received line"@;
    match group(caps, 2) {
        None => Step::Panic,
        Some(p) => if m.pid != p {
            Step::Fail(pid_error(m.pid, p, place))
        } else {
            match group(caps, 1) {
                None => Step::Panic,
                Some(d) => match log_datetime_timestamp(d) {
                    Err(e) => Step::Fail(date_error(d, e, place)),
                    Ok(t) => Step::Next(
                        ChunkModel {
                            end_time: Some(t),
                            chunk_parse_error: (m.chunk_parse_error | ERR_SIGNAL_RECEIVED)
                                & !ERR_CHUNK_INCOMPLETE,
                            ..m
                        },
                    ),
                },
            }
        },
    }
}

/// Reading a line after the start line.
pub open spec fn line_step(m: ChunkModel, line: Seq<char>) -> Step {
    if m.chunk_parse_error & ERR_CHUNK_INCOMPLETE == 0 {
        Step::Fail("Unexpected lines found after the end line"@)
    } else if m.chunk_parse_error & ERR_CONNECTION_CLOSED_WITOUT_FOLLOW_UP != 0 {
        if regex_captures(FOLLOW_UP_LINE@, line) is Some {
            Step::Next(
                ChunkModel {
                    chunk_parse_error: (m.chunk_parse_error & !ERR_CONNECTION_CLOSED_WITOUT_FOLLOW_UP)
                        & !ERR_CHUNK_INCOMPLETE,
                    ..m
                },
            )
        } else {
            Step::Fail("Expected follow-up line after connection closed"@)
        }
    } else {
        match regex_captures(END_LINE@, line) {
            Some(caps) => end_line_step(m, caps),
            None => match regex_captures(FILE_CHANGE_LINE@, line) {
                Some(caps) => file_change_step(m, caps),
                None => match regex_captures(CONNECTION_CLOSED_LINE@, line) {
                    Some(caps) => connection_closed_step(m, caps),
                    None => match regex_captures(SIGNAL_LINE@, line) {
                        Some(caps) => signal_step(m, caps),
                        None => Step::Fail("Unexpected log line format"@),
                    },
                },
            },
        }
    }
}

/// Reading one more line, before (`None`) or after the start line.
pub open spec fn feed_step(state: Option<ChunkModel>, line: Seq<char>) -> Step {
    match state {
        None => first_line_step(line),
        Some(m) => line_step(m, line),
    }
}

/// The summary once the lines have run out: there must have been a start line and at
/// least one line with a date after it.
pub open spec fn finish_chunk(label: Seq<char>, state: Option<ChunkModel>) -> Result<RsyncLogModel, Seq<char>> {
    match state {
        None => Err(no_content()),
        Some(m) => match m.end_time {
            None => Err("No lines found in the chunk"@),
            Some(end) => Ok(
                RsyncLogModel {
                    label,
                    start_time: m.start_time,
                    end_time: end,
                    total_bytes_sync: m.total_bytes_sync,
                    total_bytes_sent: m.total_bytes_sent,
                    total_bytes_sync_final: m.total_bytes_sync_final,
                    total_bytes_sent_final: m.total_bytes_sent_final,
                    num_files_changed: m.num_files_changed,
                    chunk_parse_error: m.chunk_parse_error,
                },
            ),
        },
    }
}

/// The first of the line patterns that does not compile, in the order they are
/// compiled, with its error text.
pub open spec fn patterns_error() -> Option<Seq<char>> {
    if regex_new_result(START_LINE@) is Err {
        Some(regex_new_result(START_LINE@)->Err_0)
    } else if regex_new_result(END_LINE@) is Err {
        Some(regex_new_result(END_LINE@)->Err_0)
    } else if regex_new_result(FILE_CHANGE_LINE@) is Err {
        Some(regex_new_result(FILE_CHANGE_LINE@)->Err_0)
    } else if regex_new_result(CONNECTION_CLOSED_LINE@) is Err {
        Some(regex_new_result(CONNECTION_CLOSED_LINE@)->Err_0)
    } else if regex_new_result(FOLLOW_UP_LINE@) is Err {
        Some(regex_new_result(FOLLOW_UP_LINE@)->Err_0)
    } else if regex_new_result(SIGNAL_LINE@) is Err {
        Some(regex_new_result(SIGNAL_LINE@)->Err_0)
    } else {
        None
    }
}


/// `Failed to parse "<d>" as a date (<e>) on <place>`.
fn date_error_string(d: &String, e: &String, place: &str) -> (r: String)
    ensures
        r@ == date_error(d@, e@, place@),
{
    let dbg = debug_str(d.as_str());
    let mut s = "Failed to parse ".to_owned();
    s.append(dbg.as_str());
    s.append(" as a date (");
    s.append(e.as_str());
    s.append(") on ");
    s.append(place);
    s
}

/// `Failed to parse <what> "<n>" as an i64 integer (<error>) on <place>`.
fn int_error_string_at(what: &str, n: &String, k: IntErrorKind, place: &str) -> (r: String)
    ensures
        r@ == int_error(what@, n@, k, place@),
{
    let dbg = debug_str(n.as_str());
    let kt = int_error_string(k);
    let mut s = "Failed to parse ".to_owned();
    s.append(what);
    s.append(" ");
    s.append(dbg.as_str());
    s.append(" as an i64 integer (");
    s.append(kt.as_str());
    s.append(") on ");
    s.append(place);
    s
}

/// `Unexpected PID change from <old> to <new> on <place>`.
fn pid_error_string(old: &String, new: &String, place: &str) -> (r: String)
    ensures
        r@ == pid_error(old@, new@, place@),
{
    let mut s = "Unexpected PID change from ".to_owned();
    s.append(old.as_str());
    s.append(" to ");
    s.append(new.as_str());
    s.append(" on ");
    s.append(place);
    s
}

/// The line patterns of a chunk, compiled.
pub struct LinePatterns {
    start: Pattern,
    end: Pattern,
    file_change: Pattern,
    connection_closed: Pattern,
    follow_up: Pattern,
    signal: Pattern,
}

impl LinePatterns {
    /// Each pattern was compiled from its constant.
    pub closed spec fn wf(&self) -> bool {
        &&& self.start.source() == START_LINE@
        &&& self.end.source() == END_LINE@
        &&& self.file_change.source() == FILE_CHANGE_LINE@
        &&& self.connection_closed.source() == CONNECTION_CLOSED_LINE@
        &&& self.follow_up.source() == FOLLOW_UP_LINE@
        &&& self.signal.source() == SIGNAL_LINE@
    }

    /// Compiles the six line patterns, in order; the first error stops it.
    pub fn compile() -> (r: Result<LinePatterns, String>)
        ensures
            match r {
                Ok(p) => p.wf() && patterns_error() is None,
                Err(e) => patterns_error() == Some(e@),
            },
    {
        let start = compile(START_LINE)?;
        let end = compile(END_LINE)?;
        let file_change = compile(FILE_CHANGE_LINE)?;
        let connection_closed = compile(CONNECTION_CLOSED_LINE)?;
        let follow_up = compile(FOLLOW_UP_LINE)?;
        let signal = compile(SIGNAL_LINE)?;
        Ok(LinePatterns { start, end, file_change, connection_closed, follow_up, signal })
    }
}

/// The outcome of reading a line, as computed.
pub enum StepOut {
    Next(ChunkState),
    Fail(String),
    Panic,
}

impl StepOut {
    /// The outcome as a `Step`.
    pub open spec fn step(&self) -> Step {
        match self {
            StepOut::Next(s) => Step::Next(s@),
            StepOut::Fail(e) => Step::Fail(e@),
            StepOut::Panic => Step::Panic,
        }
    }
}

fn first_line_exec(p: &LinePatterns, line: &str) -> (r: StepOut)
    requires
        p.wf(),
    ensures
        r.step() == first_line_step(line@),
{
    let caps = match captures(&p.start, line) {
        None => { return StepOut::Fail("Unexpected start line format".to_owned()); },
        Some(caps) => caps,
    };
    let d = match get_group(&caps, 1) {
        None => { return StepOut::Panic; },
        Some(d) => d,
    };
    let t = match parse_log_datetime(d.as_str()) {
        Err(e) => { return StepOut::Fail(date_error_string(&d, &e, "first chunk line")); },
        Ok(t) => t,
    };
    match get_group(&caps, 2) {
        None => StepOut::Panic,
        Some(pid) => StepOut::Next(
            ChunkState {
                start_time: t,
                pid,
                end_time: None,
                total_bytes_sync: 0,
                total_bytes_sent: 0,
                total_bytes_sync_final: 0,
                total_bytes_sent_final: 0,
                num_files_changed: 0,
                chunk_parse_error: ERR_CHUNK_INCOMPLETE,
            },
        ),
    }
}

fn end_line_exec(m: &ChunkState, caps: &Vec<Option<String>>) -> (r: StepOut)
    ensures
        r.step() == end_line_step(m@, caps.deep_view()),
{
    let place = "last chunk line";
    let p = match get_group(caps, 2) {
        None => { return StepOut::Panic; },
        Some(p) => p,
    };
    if m.pid != p {
        return StepOut::Fail(pid_error_string(&m.pid, &p, place));
    }
    let d = match get_group(caps, 1) {
        None => { return StepOut::Panic; },
        Some(d) => d,
    };
    let t = match parse_log_datetime(d.as_str()) {
        Err(e) => { return StepOut::Fail(date_error_string(&d, &e, place)); },
        Ok(t) => t,
    };
    let n5 = match get_group(caps, 5) {
        None => { return StepOut::Panic; },
        Some(n) => n,
    };
    let v5 = match parse_i64_str(n5.as_str()) {
        Err(k) => { return StepOut::Fail(int_error_string_at("total count", &n5, k, place)); },
        Ok(v) => v,
    };
    let n4 = match get_group(caps, 4) {
        None => { return StepOut::Panic; },
        Some(n) => n,
    };
    let v4 = match parse_i64_str(n4.as_str()) {
        Err(k) => { return StepOut::Fail(int_error_string_at("received count", &n4, k, place)); },
        Ok(v) => v,
    };
    StepOut::Next(
        ChunkState {
            start_time: m.start_time,
            pid: m.pid.clone(),
            end_time: Some(t),
            total_bytes_sync: m.total_bytes_sync,
            total_bytes_sent: m.total_bytes_sent,
            total_bytes_sync_final: v5,
            total_bytes_sent_final: v4,
            num_files_changed: m.num_files_changed,
            chunk_parse_error: m.chunk_parse_error & !ERR_CHUNK_INCOMPLETE,
        },
    )
}

fn file_change_exec(m: &ChunkState, caps: &Vec<Option<String>>) -> (r: StepOut)
    ensures
        r.step() == file_change_step(m@, caps.deep_view()),
{
    let place = "file change line";
    let p = match get_group(caps, 2) {
        None => { return StepOut::Panic; },
        Some(p) => p,
    };
    if m.pid != p {
        return StepOut::Fail(pid_error_string(&m.pid, &p, place));
    }
    let n4 = match get_group(caps, 4) {
        None => { return StepOut::Panic; },
        Some(n) => n,
    };
    let v4 = match parse_i64_str(n4.as_str()) {
        Err(k) => { return StepOut::Fail(int_error_string_at("file size", &n4, k, place)); },
        Ok(v) => v,
    };
    let sync = match m.total_bytes_sync.checked_add(v4) {
        None => { return StepOut::Panic; },
        Some(x) => x,
    };
    let n5 = match get_group(caps, 5) {
        None => { return StepOut::Panic; },
        Some(n) => n,
    };
    let v5 = match parse_i64_str(n5.as_str()) {
        Err(k) => { return StepOut::Fail(int_error_string_at("sent size", &n5, k, place)); },
        Ok(v) => v,
    };
    let sent = match m.total_bytes_sent.checked_add(v5) {
        None => { return StepOut::Panic; },
        Some(x) => x,
    };
    let d = match get_group(caps, 1) {
        None => { return StepOut::Panic; },
        Some(d) => d,
    };
    let t = match parse_log_datetime(d.as_str()) {
        Err(e) => { return StepOut::Fail(date_error_string(&d, &e, place)); },
        Ok(t) => t,
    };
    let count = match m.num_files_changed.checked_add(1) {
        None => { return StepOut::Panic; },
        Some(x) => x,
    };
    StepOut::Next(
        ChunkState {
            start_time: m.start_time,
            pid: m.pid.clone(),
            end_time: Some(t),
            total_bytes_sync: sync,
            total_bytes_sent: sent,
            total_bytes_sync_final: m.total_bytes_sync_final,
            total_bytes_sent_final: m.total_bytes_sent_final,
            num_files_changed: count,
            chunk_parse_error: m.chunk_parse_error,
        },
    )
}

fn connection_closed_exec(m: &ChunkState, caps: &Vec<Option<String>>) -> (r: StepOut)
    ensures
        r.step() == connection_closed_step(m@, caps.deep_view()),
{
    let place = "connection closed line";
    let p = match get_group(caps, 2) {
        None => { return StepOut::Panic; },
        Some(p) => p,
    };
    if m.pid != p {
        return StepOut::Fail(pid_error_string(&m.pid, &p, place));
    }
    let d = match get_group(caps, 1) {
        None => { return StepOut::Panic; },
        Some(d) => d,
    };
    let t = match parse_log_datetime(d.as_str()) {
        Err(e) => { return StepOut::Fail(date_error_string(&d, &e, place)); },
        Ok(t) => t,
    };
    let n3 = match get_group(caps, 3) {
        None => { return StepOut::Panic; },
        Some(n) => n,
    };
    let v3 = match parse_i64_str(n3.as_str()) {
        Err(k) => { return StepOut::Fail(int_error_string_at("transfered count", &n3, k, place)); },
        Ok(v) => v,
    };
    StepOut::Next(
        ChunkState {
            start_time: m.start_time,
            pid: m.pid.clone(),
            end_time: Some(t),
            total_bytes_sync: m.total_bytes_sync,
            total_bytes_sent: m.total_bytes_sent,
            total_bytes_sync_final: m.total_bytes_sync_final,
            total_bytes_sent_final: v3,
            num_files_changed: m.num_files_changed,
            chunk_parse_error: m.chunk_parse_error | (ERR_CONNECTION_CLOSED
                | ERR_CONNECTION_CLOSED_WITOUT_FOLLOW_UP),
        },
    )
}

fn signal_exec(m: &ChunkState, caps: &Vec<Option<String>>) -> (r: StepOut)
    ensures
        r.step() == signal_step(m@, caps.deep_view()),
{
    let place = "signal received line";
    let p = match get_group(caps, 2) {
        None => { return StepOut::Panic; },
        Some(p) => p,
    };
    if m.pid != p {
        return StepOut::Fail(pid_error_string(&m.pid, &p, place));
    }
    let d = match get_group(caps, 1) {
        None => { return StepOut::Panic; },
        Some(d) => d,
    };
    let t = match parse_log_datetime(d.as_str()) {
        Err(e) => { return StepOut::Fail(date_error_string(&d, &e, place)); },
        Ok(t) => t,
    };
    StepOut::Next(
        ChunkState {
            start_time: m.start_time,
            pid: m.pid.clone(),
            end_time: Some(t),
            total_bytes_sync: m.total_bytes_sync,
            total_bytes_sent: m.total_bytes_sent,
            total_bytes_sync_final: m.total_bytes_sync_final,
            total_bytes_sent_final: m.total_bytes_sent_final,
            num_files_changed: m.num_files_changed,
            chunk_parse_error: (m.chunk_parse_error | ERR_SIGNAL_RECEIVED) & !ERR_CHUNK_INCOMPLETE,
        },
    )
}

fn line_exec(p: &LinePatterns, m: &ChunkState, line: &str) -> (r: StepOut)
    requires
        p.wf(),
    ensures
        r.step() == line_step(m@, line@),
{
    if m.chunk_parse_error & ERR_CHUNK_INCOMPLETE == 0 {
        return StepOut::Fail("Unexpected lines found after the end line".to_owned());
    }
    if m.chunk_parse_error & ERR_CONNECTION_CLOSED_WITOUT_FOLLOW_UP != 0 {
        return match captures(&p.follow_up, line) {
            Some(_) => StepOut::Next(
                ChunkState {
                    start_time: m.start_time,
                    pid: m.pid.clone(),
                    end_time: m.end_time,
                    total_bytes_sync: m.total_bytes_sync,
                    total_bytes_sent: m.total_bytes_sent,
                    total_bytes_sync_final: m.total_bytes_sync_final,
                    total_bytes_sent_final: m.total_bytes_sent_final,
                    num_files_changed: m.num_files_changed,
                    chunk_parse_error: (m.chunk_parse_error & !ERR_CONNECTION_CLOSED_WITOUT_FOLLOW_UP)
                        & !ERR_CHUNK_INCOMPLETE,
                },
            ),
            None => StepOut::Fail("Expected follow-up line after connection closed".to_owned()),
        };
    }
    if let Some(caps) = captures(&p.end, line) {
        end_line_exec(m, &caps)
    } else if let Some(caps) = captures(&p.file_change, line) {
        file_change_exec(m, &caps)
    } else if let Some(caps) = captures(&p.connection_closed, line) {
        connection_closed_exec(m, &caps)
    } else if let Some(caps) = captures(&p.signal, line) {
        signal_exec(m, &caps)
    } else {
        StepOut::Fail("Unexpected log line format".to_owned())
    }
}


/// The mathematical value of a `ChunkParser`: its label, and the chunk read so far
/// (`None` before the start line).
pub struct ParserModel {
    pub label: Seq<char>,
    pub state: Option<ChunkModel>,
}

/// Reads a chunk line by line.
pub struct ChunkParser {
    label: String,
    patterns: LinePatterns,
    state: Option<ChunkState>,
}

/// The state of a parser, as a model.
pub open spec fn state_model(s: Option<ChunkState>) -> Option<ChunkModel> {
    match s {
        Some(c) => Some(c@),
        None => None,
    }
}

impl View for ChunkParser {
    type V = ParserModel;

    closed spec fn view(&self) -> ParserModel {
        ParserModel { label: self.label@, state: state_model(self.state) }
    }
}

/// The summary of a chunk, as a model.
pub open spec fn log_result_view(r: Result<RsyncLog, String>) -> Result<RsyncLogModel, Seq<char>> {
    match r {
        Ok(l) => Ok(l@),
        Err(e) => Err(e@),
    }
}

impl ChunkParser {
    #[verifier::type_invariant]
    spec fn inv(&self) -> bool {
        self.patterns.wf()
    }

    /// A parser for a chunk with the given label; it fails where a line pattern
    /// does not compile.
    pub fn new(label: &str) -> (r: Result<ChunkParser, String>)
        ensures
            match r {
                Ok(p) => p@ == (ParserModel { label: label@, state: None }) && patterns_error() is None,
                Err(e) => patterns_error() == Some(e@),
            },
    {
        let patterns = LinePatterns::compile()?;
        Ok(ChunkParser { label: label.to_owned(), patterns, state: None })
    }

    /// Computes the outcome of reading `line` without changing the parser.
    pub fn step(&self, line: &str) -> (r: StepOut)
        ensures
            r.step() == feed_step(self@.state, line@),
    {
        proof { use_type_invariant(self); }
        match &self.state {
            None => first_line_exec(&self.patterns, line),
            Some(m) => line_exec(&self.patterns, m, line),
        }
    }

    /// Reads one more line of the chunk. On an error the parser is left as it was.
    pub fn feed(&mut self, line: &str) -> (r: Result<(), String>)
        requires
            feed_step(old(self)@.state, line@) !is Panic,
        ensures
            match feed_step(old(self)@.state, line@) {
                Step::Next(m) => r is Ok && final(self)@ == (ParserModel { label: old(self)@.label, state: Some(m) }),
                Step::Fail(e) => r matches Err(x) && x@ == e && final(self)@ == old(self)@,
                Step::Panic => false,
            },
    {
        proof { use_type_invariant(&*self); }
        match self.step(line) {
            StepOut::Next(m) => {
                self.state = Some(m);
                Ok(())
            },
            StepOut::Fail(e) => Err(e),
            StepOut::Panic => Err(String::new()),
        }
    }

    /// Reads one more line where that does not abort: `None`, with the parser left as it
    /// was, exactly where reading it would (an `i64` total overflowing, or a missing
    /// capture group), else what `feed` gives.
    pub fn try_feed(&mut self, line: &str) -> (r: Option<Result<(), String>>)
        ensures
            match feed_step(old(self)@.state, line@) {
                Step::Next(m) => r == Some(Ok::<(), String>(())) && final(self)@ == (ParserModel { label: old(self)@.label, state: Some(m) }),
                Step::Fail(e) => r matches Some(Err(x)) && x@ == e && final(self)@ == old(self)@,
                Step::Panic => r is None && final(self)@ == old(self)@,
            },
    {
        proof { use_type_invariant(&*self); }
        match self.step(line) {
            StepOut::Next(m) => {
                self.state = Some(m);
                Some(Ok(()))
            },
            StepOut::Fail(e) => Some(Err(e)),
            StepOut::Panic => None,
        }
    }

    /// The summary of the chunk read so far, once the lines have run out.
    pub fn finish(self) -> (r: Result<RsyncLog, String>)
        ensures
            log_result_view(r) == finish_chunk(self@.label, self@.state),
    {
        match self.state {
            None => Err("No content".to_owned()),
            Some(m) => match m.end_time {
                None => Err("No lines found in the chunk".to_owned()),
                Some(end) => Ok(
                    RsyncLog {
                        label: self.label,
                        start_time: m.start_time,
                        end_time: end,
                        total_bytes_sync: m.total_bytes_sync,
                        total_bytes_sent: m.total_bytes_sent,
                        total_bytes_sync_final: m.total_bytes_sync_final,
                        total_bytes_sent_final: m.total_bytes_sent_final,
                        num_files_changed: m.num_files_changed,
                        chunk_parse_error: m.chunk_parse_error,
                    },
                ),
            },
        }
    }
}

/// Lines as they come from the reader: their text, or the error that reading gave.
pub open spec fn lines_view(lines: Seq<Result<String, String>>) -> Seq<Result<Seq<char>, Seq<char>>> {
    lines.map_values(|l: Result<String, String>| match l {
        Ok(s) => Ok(s@),
        Err(e) => Err(e@),
    })
}

/// Reading the lines in order from `state` on: the first error stops it, and after the
/// last line the chunk is summed up. `None` where the reading aborts.
pub open spec fn run_lines(
    label: Seq<char>,
    state: Option<ChunkModel>,
    lines: Seq<Result<Seq<char>, Seq<char>>>,
) -> Option<Result<RsyncLogModel, Seq<char>>>
    decreases lines.len(),
{
    if lines.len() == 0 {
        Some(finish_chunk(label, state))
    } else {
        match lines[0] {
            Err(e) => Some(Err(e)),
            Ok(l) => match feed_step(state, l) {
                Step::Panic => None,
                Step::Fail(e) => Some(Err(e)),
                Step::Next(m) => run_lines(label, Some(m), lines.drop_first()),
            },
        }
    }
}

/// What reading a whole chunk gives: a pattern that does not compile is an error
/// before any line is read; then the lines are read from the start.
pub open spec fn spec_load_iter(label: Seq<char>, lines: Seq<Result<Seq<char>, Seq<char>>>) -> Option<
    Result<RsyncLogModel, Seq<char>>,
> {
    match patterns_error() {
        Some(e) => Some(Err(e)),
        None => run_lines(label, None, lines),
    }
}

/// The outcome of `load_iter`, as a model.
pub open spec fn load_view(r: Option<Result<RsyncLog, String>>) -> Option<Result<RsyncLogModel, Seq<char>>> {
    match r {
        Some(x) => Some(log_result_view(x)),
        None => None,
    }
}

/// Reads the lines of a chunk and sums it up. `None` exactly where reading the lines
/// would abort (a total outside the `i64` range).
pub fn load_iter(label: &str, lines: &Vec<Result<String, String>>) -> (r: Option<Result<RsyncLog, String>>)
    ensures
        load_view(r) == spec_load_iter(label@, lines_view(lines@)),
{
    let ghost lv = lines_view(lines@);
    let mut parser = match ChunkParser::new(label) {
        Ok(p) => p,
        Err(e) => { return Some(Err(e)); },
    };
    let mut i: usize = 0;
    assert(lv.skip(0) =~= lv);
    while i < lines.len()
        invariant
            i <= lines.len(),
            lv == lines_view(lines@),
            patterns_error() is None,
            parser@.label == label@,
            run_lines(label@, parser@.state, lv.skip(i as int)) == run_lines(label@, None, lv),
        decreases lines.len() - i,
    {
        let ghost rest = lv.skip(i as int);
        assert(rest[0] == lv[i as int]);
        assert(rest.drop_first() =~= lv.skip(i + 1));
        match &lines[i] {
            Err(e) => { return Some(Err(e.clone())); },
            Ok(l) => match parser.try_feed(l.as_str()) {
                None => { return None; },
                Some(Err(e)) => { return Some(Err(e)); },
                Some(Ok(())) => {},
            },
        }
        i = i + 1;
    }
    assert(lv.skip(i as int) =~= Seq::<Result<Seq<char>, Seq<char>>>::empty());
    Some(parser.finish())
}


/// The flags a chunk being read can carry: never a missing start, nothing beyond the
/// five flags, and an unanswered closed connection is also a closed connection in a
/// chunk not closed yet.
pub open spec fn flags_consistent(f: u8) -> bool {
    &&& f & ERR_CHUNK_NO_START == 0
    &&& f < 32
    &&& (f & ERR_CONNECTION_CLOSED_WITOUT_FOLLOW_UP != 0 ==> f & ERR_CONNECTION_CLOSED != 0 && f
        & ERR_CHUNK_INCOMPLETE != 0)
}

/// A chunk read so far is consistent: its flags are, and once a line after the start
/// line has been taken it has an end time.
pub open spec fn chunk_consistent(m: ChunkModel) -> bool {
    &&& flags_consistent(m.chunk_parse_error)
    &&& (m.chunk_parse_error != ERR_CHUNK_INCOMPLETE || m.num_files_changed != 0 ==> m.end_time is Some)
}

proof fn lemma_flag_facts(f: u8)
    ensures
        flags_consistent(f) && f & ERR_CHUNK_INCOMPLETE != 0 && f
            & ERR_CONNECTION_CLOSED_WITOUT_FOLLOW_UP == 0 ==> flags_consistent(
            f & !ERR_CHUNK_INCOMPLETE,
        ) && (f & !ERR_CHUNK_INCOMPLETE) != ERR_CHUNK_INCOMPLETE,
        flags_consistent(f) && f & ERR_CHUNK_INCOMPLETE != 0 && f
            & ERR_CONNECTION_CLOSED_WITOUT_FOLLOW_UP == 0 ==> flags_consistent(
            f | (ERR_CONNECTION_CLOSED | ERR_CONNECTION_CLOSED_WITOUT_FOLLOW_UP),
        ) && (f | (ERR_CONNECTION_CLOSED | ERR_CONNECTION_CLOSED_WITOUT_FOLLOW_UP))
            != ERR_CHUNK_INCOMPLETE,
        flags_consistent(f) && f & ERR_CONNECTION_CLOSED_WITOUT_FOLLOW_UP == 0 ==> flags_consistent(
            (f | ERR_SIGNAL_RECEIVED) & !ERR_CHUNK_INCOMPLETE,
        ) && ((f | ERR_SIGNAL_RECEIVED) & !ERR_CHUNK_INCOMPLETE) != ERR_CHUNK_INCOMPLETE,
        flags_consistent(f) ==> flags_consistent(
            (f & !ERR_CONNECTION_CLOSED_WITOUT_FOLLOW_UP) & !ERR_CHUNK_INCOMPLETE,
        ),
        flags_consistent(f) && f & ERR_CONNECTION_CLOSED_WITOUT_FOLLOW_UP != 0 ==> ((f
            & !ERR_CONNECTION_CLOSED_WITOUT_FOLLOW_UP) & !ERR_CHUNK_INCOMPLETE) != ERR_CHUNK_INCOMPLETE,
        flags_consistent(ERR_CHUNK_INCOMPLETE),
{
    assert(f & 2u8 == 0 && f < 32 && (f & 8u8 != 0 ==> f & 4u8 != 0 && f & 1u8 != 0) && f & 1u8
        != 0 && f & 8u8 == 0 ==> (f & !1u8) & 2u8 == 0 && (f & !1u8) < 32 && ((f & !1u8) & 8u8 != 0 ==> (f & !1u8)
        & 4u8 != 0 && (f & !1u8) & 1u8 != 0) && (f & !1u8) != 1u8) by (bit_vector);
    assert(f & 2u8 == 0 && f < 32 && (f & 8u8 != 0 ==> f & 4u8 != 0 && f & 1u8 != 0) && f & 1u8
        != 0 && f & 8u8 == 0 ==> (f | (4u8 | 8u8)) & 2u8 == 0 && (f | (4u8 | 8u8)) < 32 && ((f | (4u8
        | 8u8)) & 8u8 != 0 ==> (f | (4u8 | 8u8)) & 4u8 != 0 && (f | (4u8 | 8u8)) & 1u8 != 0) && (f | (
    4u8 | 8u8)) != 1u8) by (bit_vector);
    assert(f & 2u8 == 0 && f < 32 && (f & 8u8 != 0 ==> f & 4u8 != 0 && f & 1u8 != 0) && f & 8u8 == 0 ==> ((f
        | 16u8) & !1u8) & 2u8 == 0 && ((f | 16u8) & !1u8) < 32 && (((f | 16u8) & !1u8) & 8u8 != 0
        ==> ((f | 16u8) & !1u8) & 4u8 != 0 && ((f | 16u8) & !1u8) & 1u8 != 0) && ((f | 16u8) & !1u8)
        != 1u8) by (bit_vector);
    assert(f & 2u8 == 0 && f < 32 && (f & 8u8 != 0 ==> f & 4u8 != 0 && f & 1u8 != 0) ==> ((f
        & !8u8) & !1u8) & 2u8 == 0 && ((f & !8u8) & !1u8) < 32 && (((f & !8u8) & !1u8) & 8u8 != 0
        ==> ((f & !8u8) & !1u8) & 4u8 != 0 && ((f & !8u8) & !1u8) & 1u8 != 0)) by (bit_vector);
    assert(f & 8u8 != 0 ==> ((f & !8u8) & !1u8) != 1u8) by (bit_vector);
    assert((1u8 & 2u8) == 0 && (1u8 & 8u8) == 0) by (bit_vector);
}

/// Every state that reading lines reaches is consistent: the start line gives a
/// consistent chunk, and each accepted line keeps it so.
pub proof fn lemma_step_keeps_consistency(state: Option<ChunkModel>, line: Seq<char>)
    requires
        state matches Some(m) ==> chunk_consistent(m),
    ensures
        feed_step(state, line) matches Step::Next(m2) ==> chunk_consistent(m2),
{
    match state {
        None => {
            lemma_flag_facts(0);
            assert(flags_consistent(ERR_CHUNK_INCOMPLETE));
            if let Step::Next(m2) = first_line_step(line) {
                assert(m2.chunk_parse_error == ERR_CHUNK_INCOMPLETE);
                assert(m2.num_files_changed == 0);
                assert(flags_consistent(m2.chunk_parse_error));
                assert(chunk_consistent(m2));
            }
        },
        Some(m) => {
            lemma_flag_facts(m.chunk_parse_error);
            if let Step::Next(m2) = line_step(m, line) {
                if m.chunk_parse_error & ERR_CONNECTION_CLOSED_WITOUT_FOLLOW_UP != 0 {
                    let f = m.chunk_parse_error;
                    assert(f & 8u8 != 0 ==> f != 1u8) by (bit_vector);
                    assert(m2.end_time == m.end_time);
                } else {
                    assert(m2.end_time is Some);
                }
            }
        },
    }
}

/// Reading a line never changes the pid or the start time of the chunk.
pub proof fn lemma_step_keeps_pid_and_start(m: ChunkModel, line: Seq<char>)
    ensures
        line_step(m, line) matches Step::Next(m2) ==> m2.pid == m.pid && m2.start_time == m.start_time,
{
}

/// Once a chunk is closed (by its totals, a signal, or the follow-up of a closed
/// connection), every further line is refused.
pub proof fn lemma_closed_chunk_refuses_lines(m: ChunkModel, line: Seq<char>)
    requires
        m.chunk_parse_error & ERR_CHUNK_INCOMPLETE == 0,
    ensures
        line_step(m, line) == Step::Fail("Unexpected lines found after the end line"@),
{
}

/// After a closed connection, the next line must be its follow-up: any other line is
/// refused, and the follow-up closes the chunk.
pub proof fn lemma_follow_up_required(m: ChunkModel, line: Seq<char>)
    requires
        flags_consistent(m.chunk_parse_error),
        m.chunk_parse_error & ERR_CONNECTION_CLOSED_WITOUT_FOLLOW_UP != 0,
    ensures
        regex_captures(FOLLOW_UP_LINE@, line) is None ==> line_step(m, line) == Step::Fail(
            "Expected follow-up line after connection closed"@,
        ),
        regex_captures(FOLLOW_UP_LINE@, line) is Some ==> (line_step(m, line) matches Step::Next(m2)
            && m2.chunk_parse_error & ERR_CHUNK_INCOMPLETE == 0),
{
    let f = m.chunk_parse_error;
    assert(f & 8u8 != 0 && f < 32 && (f & 8u8 != 0 ==> f & 1u8 != 0) ==> f & 1u8 != 0) by (bit_vector);
    assert(((f & !8u8) & !1u8) & 1u8 == 0) by (bit_vector);
}

/// A summary never reports a missing start line, and reports an unanswered closed
/// connection only as a closed one in an unclosed chunk.
pub proof fn lemma_summary_flags(label: Seq<char>, lines: Seq<Result<Seq<char>, Seq<char>>>)
    ensures
        spec_load_iter(label, lines) matches Some(Ok(log)) ==> flags_consistent(log.chunk_parse_error),
{
    if patterns_error() is None {
        lemma_run_lines_consistent(label, None, lines);
    }
}

proof fn lemma_run_lines_consistent(
    label: Seq<char>,
    state: Option<ChunkModel>,
    lines: Seq<Result<Seq<char>, Seq<char>>>,
)
    requires
        state matches Some(m) ==> chunk_consistent(m),
    ensures
        run_lines(label, state, lines) matches Some(Ok(log)) ==> flags_consistent(log.chunk_parse_error),
    decreases lines.len(),
{
    if lines.len() > 0 {
        if let Ok(l) = lines[0] {
            lemma_step_keeps_consistency(state, l);
            if let Step::Next(m) = feed_step(state, l) {
                lemma_run_lines_consistent(label, Some(m), lines.drop_first());
            }
        }
    }
}


/// The length of the first piece of `s` when it is cut after each `delim`: up to and
/// including the first `delim`, or all of `s` where there is none.
pub open spec fn piece_len(s: Seq<u8>, delim: u8) -> nat
    decreases s.len(),
{
    if s.len() == 0 {
        0
    } else if s[0] == delim {
        1
    } else {
        1 + piece_len(s.drop_first(), delim)
    }
}

/// `s` cut after each `delim`, as repeated `BufRead::read_until(delim)` calls give it:
/// every piece but the last ends with `delim`, and an empty input gives no piece.
pub open spec fn split_pieces(s: Seq<u8>, delim: u8) -> Seq<Seq<u8>>
    decreases s.len(),
{
    if s.len() == 0 {
        Seq::empty()
    } else {
        let n = piece_len(s, delim);
        if n == 0 || n > s.len() {
            Seq::empty()
        } else {
            seq![s.take(n as int)] + split_pieces(s.skip(n as int), delim)
        }
    }
}

proof fn lemma_piece_len(s: Seq<u8>, delim: u8)
    ensures
        s.len() > 0 ==> 1 <= piece_len(s, delim) <= s.len(),
        forall|k: int| 0 <= k < piece_len(s, delim) - 1 ==> s[k] != delim,
        piece_len(s, delim) < s.len() ==> s[piece_len(s, delim) - 1] == delim,
        piece_len(s, delim) > 0 && s[piece_len(s, delim) - 1] != delim ==> piece_len(s, delim) == s.len(),
    decreases s.len(),
{
    if s.len() > 0 && s[0] != delim {
        lemma_piece_len(s.drop_first(), delim);
        assert forall|k: int| 0 <= k < piece_len(s, delim) - 1 implies s[k] != delim by {
            if k > 0 {
                assert(s[k] == s.drop_first()[k - 1]);
            }
        }
    }
}

/// There are never more pieces than bytes.
pub(crate) proof fn lemma_pieces_count(s: Seq<u8>, delim: u8)
    ensures
        split_pieces(s, delim).len() <= s.len(),
    decreases s.len(),
{
    lemma_piece_len(s, delim);
    if s.len() > 0 {
        lemma_pieces_count(s.skip(piece_len(s, delim) as int), delim);
    }
}

/// The pieces put back together.
pub open spec fn concat_pieces(ps: Seq<Seq<u8>>) -> Seq<u8>
    decreases ps.len(),
{
    if ps.len() == 0 {
        Seq::empty()
    } else {
        ps[0] + concat_pieces(ps.drop_first())
    }
}

/// Cutting after each delimiter loses and adds nothing: the pieces put back together are
/// the input, no piece is empty, and a delimiter can only be the last byte of a piece,
/// which every piece but the last ends with.
pub proof fn lemma_split_pieces(s: Seq<u8>, delim: u8)
    ensures
        concat_pieces(split_pieces(s, delim)) == s,
        forall|i: int| 0 <= i < split_pieces(s, delim).len() ==> #[trigger] split_pieces(s, delim)[i].len() > 0,
        forall|i: int, k: int| 0 <= i < split_pieces(s, delim).len() && 0 <= k < split_pieces(s, delim)[i].len() - 1
            ==> #[trigger] split_pieces(s, delim)[i][k] != delim,
        forall|i: int| 0 <= i < split_pieces(s, delim).len() - 1 ==> #[trigger] split_pieces(s, delim)[i].last() == delim,
    decreases s.len(),
{
    lemma_piece_len(s, delim);
    if s.len() > 0 {
        let n = piece_len(s, delim);
        let rest = s.skip(n as int);
        lemma_split_pieces(rest, delim);
        let ps = split_pieces(s, delim);
        assert(ps.drop_first() =~= split_pieces(rest, delim));
        assert(s =~= s.take(n as int) + rest);
        assert forall|i: int| 0 <= i < ps.len() - 1 implies #[trigger] ps[i].last() == delim by {
            if i == 0 {
                lemma_piece_len(rest, delim);
                assert(split_pieces(rest, delim).len() > 0);
                assert(rest.len() > 0);
            } else {
                assert(ps[i] == split_pieces(rest, delim)[i - 1]);
            }
        }
        assert forall|i: int, k: int| 0 <= i < ps.len() && 0 <= k < ps[i].len() - 1 implies #[trigger] ps[i][k] != delim by {
            if i > 0 {
                assert(ps[i] == split_pieces(rest, delim)[i - 1]);
            }
        }
        assert forall|i: int| 0 <= i < ps.len() implies #[trigger] ps[i].len() > 0 by {
            if i > 0 {
                assert(ps[i] == split_pieces(rest, delim)[i - 1]);
            }
        }
    }
}

/// Bytes handed out piece by piece, each piece ending after the delimiter, as
/// `BufRead::read_until` reads them.
pub struct SplitWithDelimiter {
    data: Vec<u8>,
    pos: usize,
    delim: u8,
}

impl SplitWithDelimiter {
    #[verifier::type_invariant]
    spec fn inv(&self) -> bool {
        self.pos <= self.data@.len()
    }

    /// The pieces still to come.
    pub closed spec fn remaining(&self) -> Seq<Seq<u8>> {
        split_pieces(self.data@.skip(self.pos as int), self.delim)
    }

    /// The delimiter the pieces are cut after.
    pub closed spec fn delimiter(&self) -> u8 {
        self.delim
    }

    /// The pieces of `data`, cut after each `delim`.
    pub fn new(data: Vec<u8>, delim: u8) -> (r: SplitWithDelimiter)
        ensures
            r.remaining() == split_pieces(data@, delim),
            r.delimiter() == delim,
    {
        let r = SplitWithDelimiter { data, pos: 0, delim };
        assert(r.data@.skip(0) =~= r.data@);
        r
    }

    /// The next piece, or `None` once every byte has been handed out.
    pub fn next_piece(&mut self) -> (r: Option<Vec<u8>>)
        ensures
            old(self).remaining().len() == 0 ==> r is None && final(self).remaining() == old(self).remaining(),
            old(self).remaining().len() > 0 ==> (r matches Some(p) && p@ == old(self).remaining()[0])
                && final(self).remaining() == old(self).remaining().drop_first(),
            final(self).delimiter() == old(self).delimiter(),
    {
        proof { use_type_invariant(&*self); }
        let ghost rest = self.data@.skip(self.pos as int);
        if self.pos == self.data.len() {
            assert(rest.len() == 0);
            return None;
        }
        let start = self.pos;
        let mut j = start;
        proof { lemma_piece_len(rest, self.delim); }
        while j < self.data.len() && self.data[j] != self.delim
            invariant
                start <= j <= self.data@.len(),
                start < self.data@.len(),
                rest == self.data@.skip(start as int),
                piece_len(rest, self.delim) == (j - start) + piece_len(self.data@.skip(j as int), self.delim),
            decreases self.data@.len() - j,
        {
            assert(self.data@.skip(j as int).drop_first() =~= self.data@.skip(j + 1));
            j = j + 1;
        }
        let end = if j < self.data.len() { j + 1 } else { j };
        let mut piece: Vec<u8> = Vec::new();
        let mut k = start;
        while k < end
            invariant
                start <= k <= end <= self.data@.len(),
                piece@ == self.data@.subrange(start as int, k as int),
            decreases end - k,
        {
            piece.push(self.data[k]);
            assert(self.data@.subrange(start as int, k + 1) =~= self.data@.subrange(start as int, k as int).push(self.data@[k as int]));
            k = k + 1;
        }
        assert(piece_len(rest, self.delim) == end - start);
        assert(piece@ =~= rest.take((end - start) as int));
        assert(rest.skip((end - start) as int) =~= self.data@.skip(end as int));
        self.pos = end;
        Some(piece)
    }
}

/// Cutting buffered bytes into pieces, each ending after a delimiter.
pub trait BufReadExt: Sized + View<V = Seq<u8>> {
    /// The pieces of the bytes, each ending after `delim` (the last may end without it).
    fn split_with_delimiter(self, delim: u8) -> (r: SplitWithDelimiter)
        ensures
            r.remaining() == split_pieces(self@, delim),
            r.delimiter() == delim,
    ;
}

impl BufReadExt for Vec<u8> {
    fn split_with_delimiter(self, delim: u8) -> (r: SplitWithDelimiter) {
        SplitWithDelimiter::new(self, delim)
    }
}

/// The bytes as lower-case hexadecimal pairs separated by single spaces.
pub open spec fn spec_hex_dump(data: Seq<u8>) -> Seq<char>
    decreases data.len(),
{
    if data.len() == 0 {
        Seq::empty()
    } else if data.len() == 1 {
        spec_hex_byte(data[0])
    } else {
        spec_hex_dump(data.drop_last()) + seq![' '] + spec_hex_byte(data.last())
    }
}

/// A hex dump of `n` bytes is `3n - 1` characters long (none for no byte): byte `i` is
/// written as its two lower-case hexadecimal digits at `3i` and `3i + 1`, and a space
/// stands at `3i + 2` between it and the next byte.
pub proof fn lemma_hex_dump_layout(data: Seq<u8>)
    ensures
        spec_hex_dump(data).len() == (if data.len() == 0 { 0 } else { 3 * data.len() - 1 }),
        forall|i: int| 0 <= i < data.len() ==> #[trigger] spec_hex_dump(data).subrange(3 * i, 3 * i + 2) == spec_hex_byte(
            data[i],
        ),
        forall|i: int| 0 <= i < data.len() - 1 ==> #[trigger] spec_hex_dump(data)[3 * i + 2] == ' ',
    decreases data.len(),
{
    if data.len() > 1 {
        let init = data.drop_last();
        lemma_hex_dump_layout(init);
        let h = spec_hex_dump(init);
        let full = spec_hex_dump(data);
        assert(full == h + seq![' '] + spec_hex_byte(data.last()));
        assert forall|i: int| 0 <= i < data.len() implies #[trigger] full.subrange(3 * i, 3 * i + 2) == spec_hex_byte(
            data[i],
        ) by {
            if i < init.len() {
                assert(init[i] == data[i]);
                assert(full.subrange(3 * i, 3 * i + 2) =~= h.subrange(3 * i, 3 * i + 2));
            } else {
                assert(full.subrange(3 * i, 3 * i + 2) =~= spec_hex_byte(data.last()));
            }
        }
        assert forall|i: int| 0 <= i < data.len() - 1 implies #[trigger] full[3 * i + 2] == ' ' by {
            if i < init.len() - 1 {
                assert(full[3 * i + 2] == h[3 * i + 2]);
            }
        }
    } else if data.len() == 1 {
        assert(spec_hex_dump(data).subrange(0, 2) =~= spec_hex_byte(data[0]));
    }
}

/// The bytes as lower-case hexadecimal pairs separated by single spaces, such as `de ad be ef`.
pub fn hex_dump(data: &[u8]) -> (r: String)
    ensures
        r@ == spec_hex_dump(data@),
{
    let mut out: Vec<char> = Vec::new();
    let mut i: usize = 0;
    assert(data@.take(0) =~= Seq::<u8>::empty());
    while i < data.len()
        invariant
            i <= data.len(),
            out@ == spec_hex_dump(data@.take(i as int)),
        decreases data.len() - i,
    {
        let ghost before = out@;
        if i > 0 {
            out.push(' ');
        }
        push_hex_byte(data[i], &mut out);
        assert(data@.take(i + 1).drop_last() =~= data@.take(i as int));
        proof {
            if i == 0 {
                assert(data@.take(1)[0] == data@[0]);
                assert(out@ =~= spec_hex_byte(data@[0]));
            } else {
                assert(out@ =~= before + seq![' '] + spec_hex_byte(data@[i as int]));
            }
        }
        i = i + 1;
    }
    assert(data@.take(data.len() as int) =~= data@);
    string_of(out.as_slice())
}

/// A raw line without its trailing newline, if it has one.
pub open spec fn strip_newline(raw: Seq<u8>) -> Seq<u8> {
    if raw.len() > 0 && raw.last() == 10 {
        raw.drop_last()
    } else {
        raw
    }
}

/// The text of a line (without its newline), or `Invalid UTF-8 data [<hex dump>]`.
pub open spec fn spec_decode_line(raw: Seq<u8>) -> Result<Seq<char>, Seq<char>> {
    let line = strip_newline(raw);
    if valid_utf8(line) {
        Ok(decode_utf8(line))
    } else {
        Err("Invalid UTF-8 data ["@ + spec_hex_dump(line) + "]"@)
    }
}

/// A raw line as read: the line without its trailing newline, and its text, or why it is
/// not text.
pub fn decode_line(raw: Vec<u8>) -> (r: (Vec<u8>, Result<String, String>))
    ensures
        r.0@ == strip_newline(raw@),
        match (spec_decode_line(raw@), r.1) {
            (Ok(a), Ok(b)) => a == b@,
            (Err(a), Err(b)) => a == b@,
            _ => false,
        },
{
    let mut line = raw;
    if line.len() > 0 && line[line.len() - 1] == 10u8 {
        line.pop();
    }
    let kept = line.clone();
    match utf8_string(line) {
        Ok(s) => (kept, Ok(s)),
        Err(bytes) => {
            let mut msg = "Invalid UTF-8 data [".to_owned();
            let dump = hex_dump(bytes.as_slice());
            msg.append(dump.as_str());
            msg.append("]");
            (kept, Err(msg))
        },
    }
}

/// The text of the error given where the input holds no line at all.
pub open spec fn no_content() -> Seq<char> {
    "No content"@
}

/// Whether a chunk that did not read is saved: for every error but an empty input.
pub fn saves_failed_chunk(error: &String) -> (r: bool)
    ensures
        r == (error@ != no_content()),
{
    let nothing = "No content".to_owned();
    proof {
        reveal_strlit("No content");
    }
    !(*error == nothing)
}

/// Where a failed chunk is saved: `<folder>/<sha1>.chunk`.
pub open spec fn spec_failed_chunk_path(folder: Seq<char>, sha1: Seq<char>) -> Seq<char> {
    folder + "/"@ + sha1 + ".chunk"@
}

/// Where a failed chunk is saved: `<folder>/<sha1>.chunk`.
pub fn failed_chunk_path(folder: &str, sha1: &str) -> (r: String)
    ensures
        r@ == spec_failed_chunk_path(folder@, sha1@),
{
    let mut s = folder.to_owned();
    s.append("/");
    s.append(sha1);
    s.append(".chunk");
    s
}

/// The error a failed chunk is reported with:
/// `(Line <n>) <error>:\n  <last line>\n\n  Failed chunk is saved to "<path>"`.
pub open spec fn spec_failed_chunk_message(
    line_number: Seq<char>,
    error: Seq<char>,
    last_line: Seq<u8>,
    path: Seq<char>,
) -> Seq<char> {
    "(Line "@ + line_number + ") "@ + error + ":\n  "@ + utf8_lossy(last_line)
        + "\n\n  Failed chunk is saved to "@ + str_debug(path)
}

/// The error a failed chunk is reported with, naming the number of the last line read
/// (counted from one), the error, that line (decoded lossily) and where the chunk was saved.
pub fn failed_chunk_message(last_index: usize, error: &str, last_line: &[u8], path: &str) -> (r: String)
    requires
        last_index < usize::MAX,
    ensures
        r@ == spec_failed_chunk_message(crate::text::spec_digits((last_index + 1) as nat), error@, last_line@, path@),
{
    let n: usize = last_index + 1;
    let digits = crate::text::unsigned_decimal_chars(n as u64);
    let number = string_of(digits.as_slice());
    let text = lossy_string(last_line);
    let dbg = debug_str(path);
    let mut s = "(Line ".to_owned();
    s.append(number.as_str());
    s.append(") ");
    s.append(error);
    s.append(":\n  ");
    s.append(text.as_str());
    s.append("\n\n  Failed chunk is saved to ");
    s.append(dbg.as_str());
    s
}


/// The lines of raw input: the pieces cut after each newline, each decoded.
pub open spec fn decoded_lines(data: Seq<u8>) -> Seq<Result<Seq<char>, Seq<char>>> {
    split_pieces(data, 10).map_values(|p: Seq<u8>| spec_decode_line(p))
}

/// How many lines reading takes from `state` on: up to and including the line that stops
/// it, or all of them.
pub open spec fn lines_taken(state: Option<ChunkModel>, lines: Seq<Result<Seq<char>, Seq<char>>>) -> nat
    decreases lines.len(),
{
    if lines.len() == 0 {
        0
    } else {
        match lines[0] {
            Err(_) => 1,
            Ok(l) => match feed_step(state, l) {
                Step::Next(m) => 1 + lines_taken(Some(m), lines.drop_first()),
                _ => 1,
            },
        }
    }
}

/// How many lines reading a chunk takes: none where a pattern does not compile.
pub open spec fn spec_lines_read(lines: Seq<Result<Seq<char>, Seq<char>>>) -> nat {
    if patterns_error() is Some {
        0
    } else {
        lines_taken(None, lines)
    }
}

/// What reading a chunk from raw input gives: the summary or the error, how many lines
/// and bytes were read, and the index (counted from zero, zero where no line was read) and
/// the bytes (without the newline) of the last line read.
pub struct ChunkReading {
    pub result: Result<RsyncLog, String>,
    pub lines_read: usize,
    pub bytes_read: usize,
    pub last_index: usize,
    pub last_line: Vec<u8>,
}

/// Splitting the pieces put back together after `n` of them.
proof fn lemma_concat_split(ps: Seq<Seq<u8>>, n: int)
    requires
        0 <= n <= ps.len(),
    ensures
        concat_pieces(ps) == concat_pieces(ps.take(n)) + concat_pieces(ps.skip(n)),
    decreases n,
{
    if n == 0 {
        assert(ps.take(0) =~= Seq::<Seq<u8>>::empty());
        assert(ps.skip(0) =~= ps);
        assert(concat_pieces(ps.take(0)) + concat_pieces(ps) =~= concat_pieces(ps));
    } else {
        let rest = ps.drop_first();
        lemma_concat_split(rest, n - 1);
        assert(ps.take(n).drop_first() =~= rest.take(n - 1));
        assert(ps.take(n)[0] == ps[0]);
        assert(ps.skip(n) =~= rest.skip(n - 1));
        assert(concat_pieces(ps) =~= concat_pieces(ps.take(n)) + concat_pieces(ps.skip(n)));
    }
}

/// Reads one chunk from raw input, line by line, stopping at the first line that does not
/// read or is refused. `None` exactly where reading would abort (a total outside the `i64`
/// range).
pub fn read_chunk(label: &str, data: Vec<u8>) -> (r: Option<ChunkReading>)
    ensures
        match r {
            None => spec_load_iter(label@, decoded_lines(data@)) is None,
            Some(c) => {
                let ps = split_pieces(data@, 10);
                &&& spec_load_iter(label@, decoded_lines(data@)) == Some(log_result_view(c.result))
                &&& c.lines_read == spec_lines_read(decoded_lines(data@))
                &&& c.lines_read <= ps.len()
                &&& c.bytes_read <= data@.len()
                &&& data@.take(c.bytes_read as int) == concat_pieces(ps.take(c.lines_read as int))
                &&& c.last_index == (if c.lines_read > 0 { c.lines_read - 1 } else { 0 })
                &&& c.last_line@ == (if c.lines_read > 0 { strip_newline(ps[c.lines_read - 1]) } else { Seq::empty() })
            },
        },
{
    let ghost ps = split_pieces(data@, 10);
    let ghost dl = decoded_lines(data@);
    let ghost all = data@;
    proof {
        lemma_split_pieces(data@, 10);
    }
    let mut parser = match ChunkParser::new(label) {
        Ok(p) => p,
        Err(e) => {
            assert(data@.take(0) =~= concat_pieces(ps.take(0)));
            return Some(ChunkReading { result: Err(e), lines_read: 0, bytes_read: 0, last_index: 0, last_line: Vec::new() });
        },
    };
    let dlen = data.len();
    assert(all.len() == dlen);
    let mut pieces = data.split_with_delimiter(10);
    let mut n: usize = 0;
    let mut b: usize = 0;
    let mut last_line: Vec<u8> = Vec::new();
    assert(ps.skip(0) =~= ps);
    assert(dl.skip(0) =~= dl);
    assert(all.take(0) =~= concat_pieces(ps.take(0)));
    loop
        invariant
            all == data@,
            all.len() <= usize::MAX,
            ps == split_pieces(all, 10),
            dl == decoded_lines(all),
            concat_pieces(ps) == all,
            forall|i: int| 0 <= i < ps.len() ==> #[trigger] ps[i].len() > 0,
            n <= b,
            patterns_error() is None,
            parser@.label == label@,
            n <= ps.len(),
            b <= all.len(),
            pieces.remaining() == ps.skip(n as int),
            pieces.delimiter() == 10,
            all.take(b as int) == concat_pieces(ps.take(n as int)),
            run_lines(label@, parser@.state, dl.skip(n as int)) == run_lines(label@, None, dl),
            lines_taken(parser@.state, dl.skip(n as int)) + n == lines_taken(None, dl),
            last_line@ == (if n > 0 { strip_newline(ps[n - 1]) } else { Seq::<u8>::empty() }),
        decreases ps.len() - n,
    {
        let ghost rest = dl.skip(n as int);
        let piece = match pieces.next_piece() {
            None => {
                assert(ps.len() == n);
                assert(rest =~= Seq::<Result<Seq<char>, Seq<char>>>::empty());
                let result = parser.finish();
                let idx: usize = if n > 0 { n - 1 } else { 0 };
                return Some(ChunkReading { result, lines_read: n, bytes_read: b, last_index: idx, last_line });
            },
            Some(p) => p,
        };
        assert(piece@ == ps[n as int]);
        proof {
            lemma_concat_split(ps, n as int);
            lemma_concat_split(ps.take(n + 1), n as int);
            assert(ps.take(n + 1).take(n as int) =~= ps.take(n as int));
            assert(ps.take(n + 1).skip(n as int) =~= seq![ps[n as int]]);
            assert(seq![ps[n as int]].drop_first() =~= Seq::<Seq<u8>>::empty());
            assert(concat_pieces(Seq::<Seq<u8>>::empty()) =~= Seq::<u8>::empty());
            assert(seq![ps[n as int]][0] == ps[n as int]);
            assert(concat_pieces(seq![ps[n as int]]) =~= ps[n as int]);
            lemma_concat_split(ps, n + 1);
            assert(all.take(b + piece@.len()) =~= concat_pieces(ps.take(n + 1)));
            assert(b + piece@.len() <= all.len());
            assert(piece@.len() > 0);
            assert(rest[0] == spec_decode_line(ps[n as int]));
            assert(rest.drop_first() =~= dl.skip(n + 1));
        }
        let plen = piece.len();
        let (line, text) = decode_line(piece);
        last_line = line;
        n = n + 1;
        b = b + plen;
        let idx: usize = n - 1;
        match text {
            Err(e) => {
                return Some(ChunkReading { result: Err(e), lines_read: n, bytes_read: b, last_index: idx, last_line });
            },
            Ok(t) => match parser.try_feed(t.as_str()) {
                None => { return None; },
                Some(Err(e)) => {
                    return Some(ChunkReading { result: Err(e), lines_read: n, bytes_read: b, last_index: idx, last_line });
                },
                Some(Ok(())) => {},
            },
        }
    }
}


proof fn lemma_lines_taken(
    label: Seq<char>,
    state: Option<ChunkModel>,
    ls: Seq<Result<Seq<char>, Seq<char>>>,
    more: Seq<Result<Seq<char>, Seq<char>>>,
)
    ensures
        lines_taken(state, ls) <= ls.len(),
        ls.len() > 0 ==> 1 <= lines_taken(state, ls),
        run_lines(label, state, ls) matches Some(Ok(_)) ==> lines_taken(state, ls) == ls.len(),
        ({
            let n = lines_taken(state, ls) as int;
            n < ls.len() ==> lines_taken(state, ls.take(n) + more) == n && run_lines(label, state, ls.take(n) + more)
                == run_lines(label, state, ls)
        }),
    decreases ls.len(),
{
    if ls.len() > 0 {
        let n = lines_taken(state, ls) as int;
        let ext = ls.take(n) + more;
        let rest = ls.drop_first();
        if n >= 1 && n <= ls.len() {
            assert(ext[0] == ls[0]);
        }
        if let Ok(l) = ls[0] {
            if let Step::Next(m) = feed_step(state, l) {
                lemma_lines_taken(label, Some(m), rest, more);
                let n2 = lines_taken(Some(m), rest) as int;
                assert(n == n2 + 1);
                if n < ls.len() {
                    assert(ext.drop_first() =~= rest.take(n2) + more);
                    assert(ext.len() > 0);
                }
            }
        }
    }
}

/// Reading a chunk counts the line that stops it, whichever line that is: where the line
/// patterns compile and there is a line, at least one line and at most all of them are
/// read; a chunk that is summed up has all its lines read; a first line that does not
/// read or is no start line is the one line read; and where reading stops before the last
/// line, the lines after those read play no part: any other lines after them give the
/// same outcome and the same count.
pub proof fn lemma_lines_read(
    label: Seq<char>,
    lines: Seq<Result<Seq<char>, Seq<char>>>,
    more: Seq<Result<Seq<char>, Seq<char>>>,
)
    ensures
        patterns_error() is None && lines.len() > 0 ==> 1 <= spec_lines_read(lines) <= lines.len(),
        spec_load_iter(label, lines) matches Some(Ok(_)) ==> spec_lines_read(lines) == lines.len(),
        patterns_error() is None && lines.len() > 0 && (lines[0] is Err || regex_captures(START_LINE@, lines[0]->Ok_0) is None)
            ==> spec_lines_read(lines) == 1,
        ({
            let n = spec_lines_read(lines) as int;
            patterns_error() is None && n < lines.len() ==> spec_lines_read(lines.take(n) + more) == n
                && spec_load_iter(label, lines.take(n) + more) == spec_load_iter(label, lines)
        }),
{
    lemma_lines_taken(label, None, lines, more);
    if lines.len() > 0 {
        if let Ok(l) = lines[0] {
            if regex_captures(START_LINE@, l) is None {
                assert(first_line_step(l) is Fail);
            }
        }
    }
}

/// A chunk that does not read is saved under the SHA-1 of the lines read, which hold at
/// least its first line: where the input is not empty (and the line patterns compile), at
/// least one line is read, the bytes read start with the first line, and the last line read
/// is the first line where that is the one that stops the reading.
pub proof fn lemma_saved_chunk_holds_first_line(data: Seq<u8>)
    ensures
        ({
            let ps = split_pieces(data, 10);
            let n = spec_lines_read(decoded_lines(data));
            patterns_error() is None && data.len() > 0 ==> {
                &&& 1 <= n <= ps.len()
                &&& concat_pieces(ps.take(n as int)).subrange(0, ps[0].len() as int) == ps[0]
                &&& (n == 1 ==> last_line_bytes(data, n) == strip_newline(ps[0]))
            }
        }),
{
    let ps = split_pieces(data, 10);
    let dl = decoded_lines(data);
    lemma_split_pieces(data, 10);
    lemma_lines_read(Seq::empty(), dl, Seq::empty());
    if patterns_error() is None && data.len() > 0 {
        if ps.len() == 0 {
            assert(concat_pieces(ps) =~= Seq::<u8>::empty());
        }
        assert(dl.len() == ps.len());
        let n = spec_lines_read(dl) as int;
        let t = ps.take(n);
        assert(t[0] == ps[0]);
        assert(concat_pieces(t) == t[0] + concat_pieces(t.drop_first()));
        assert(concat_pieces(t).subrange(0, ps[0].len() as int) =~= ps[0]);
    }
}


/// Lines that all read, as the reader hands them out.
pub open spec fn ok_lines(ls: Seq<Seq<char>>) -> Seq<Result<Seq<char>, Seq<char>>> {
    ls.map_values(|l: Seq<char>| Ok::<Seq<char>, Seq<char>>(l))
}

/// A line with the transfer totals.
pub open spec fn is_end_line(l: Seq<char>) -> bool {
    regex_captures(END_LINE@, l) is Some
}

/// A file-change line (that is not a line with the totals).
pub open spec fn is_change_line(l: Seq<char>) -> bool {
    !is_end_line(l) && regex_captures(FILE_CHANGE_LINE@, l) is Some
}

/// A connection-closed line (that is none of the above).
pub open spec fn is_closed_line(l: Seq<char>) -> bool {
    !is_end_line(l) && regex_captures(FILE_CHANGE_LINE@, l) is None && regex_captures(CONNECTION_CLOSED_LINE@, l) is Some
}

/// A signal line (that is none of the above).
pub open spec fn is_signal_line(l: Seq<char>) -> bool {
    !is_end_line(l) && regex_captures(FILE_CHANGE_LINE@, l) is None && regex_captures(CONNECTION_CLOSED_LINE@, l) is None
        && regex_captures(SIGNAL_LINE@, l) is Some
}

/// The number in group `g` of the match of `pattern` on `l`.
pub open spec fn group_number(pattern: Seq<char>, l: Seq<char>, g: int) -> int {
    spec_parse_i64(group(regex_captures(pattern, l)->Some_0, g)->Some_0)->Ok_0 as int
}

/// The time of a line after the start line: the date of the pattern it is read by.
pub open spec fn line_time(l: Seq<char>) -> i64 {
    let pattern = if is_end_line(l) {
        END_LINE@
    } else if is_change_line(l) {
        FILE_CHANGE_LINE@
    } else if is_closed_line(l) {
        CONNECTION_CLOSED_LINE@
    } else {
        SIGNAL_LINE@
    };
    log_datetime_timestamp(group(regex_captures(pattern, l)->Some_0, 1)->Some_0)->Ok_0
}

/// Whether the line after `l` is the follow-up of a closed connection, `prev` telling
/// whether `l` itself is one.
pub open spec fn next_follows(l: Seq<char>, prev: bool) -> bool {
    !prev && is_closed_line(l)
}

/// How many of the lines are file-change lines (a follow-up line is none), the first
/// being a follow-up line where `prev`.
pub open spec fn change_count(ls: Seq<Seq<char>>, prev: bool) -> int
    decreases ls.len(),
{
    if ls.len() == 0 {
        0
    } else {
        (if !prev && is_change_line(ls[0]) { 1int } else { 0int }) + change_count(ls.drop_first(), next_follows(ls[0], prev))
    }
}

/// The sum of group `g` over the file-change lines.
pub open spec fn change_sum(ls: Seq<Seq<char>>, prev: bool, g: int) -> int
    decreases ls.len(),
{
    if ls.len() == 0 {
        0
    } else {
        (if !prev && is_change_line(ls[0]) { group_number(FILE_CHANGE_LINE@, ls[0], g) } else { 0int })
            + change_sum(ls.drop_first(), next_follows(ls[0], prev), g)
    }
}

/// The time of the last line that is not a follow-up line (`acc` where there is none).
pub open spec fn last_time(ls: Seq<Seq<char>>, prev: bool, acc: Option<i64>) -> Option<i64>
    decreases ls.len(),
{
    if ls.len() == 0 {
        acc
    } else {
        last_time(ls.drop_first(), next_follows(ls[0], prev), if prev { acc } else { Some(line_time(ls[0])) })
    }
}

/// Whether the last of the lines is a follow-up line.
pub open spec fn last_follows(ls: Seq<Seq<char>>, prev: bool) -> bool
    decreases ls.len(),
{
    if ls.len() <= 1 {
        prev
    } else {
        last_follows(ls.drop_first(), next_follows(ls[0], prev))
    }
}

/// Whether some line is a connection-closed line (a follow-up line is none).
pub open spec fn any_closed(ls: Seq<Seq<char>>, prev: bool) -> bool
    decreases ls.len(),
{
    if ls.len() == 0 {
        false
    } else {
        next_follows(ls[0], prev) || any_closed(ls.drop_first(), next_follows(ls[0], prev))
    }
}

/// The flags of a summary after the lines `ls` (not empty), from flags `f0` before them.
pub open spec fn flags_follow(f: u8, f0: u8, ls: Seq<Seq<char>>, prev: bool) -> bool {
    let last = ls.last();
    let fu = last_follows(ls, prev);
    &&& f & ERR_CHUNK_NO_START == 0
    &&& (f & ERR_CHUNK_INCOMPLETE != 0 <==> !fu && (is_change_line(last) || is_closed_line(last)))
    &&& (f & ERR_CONNECTION_CLOSED_WITOUT_FOLLOW_UP != 0 <==> !fu && is_closed_line(last))
    &&& (f & ERR_SIGNAL_RECEIVED != 0 <==> !fu && is_signal_line(last))
    &&& (f & ERR_CONNECTION_CLOSED != 0 <==> f0 & ERR_CONNECTION_CLOSED != 0 || any_closed(ls, prev))
}

/// The shape of the flags while a chunk is read.
pub open spec fn flag_shape(f: u8) -> bool {
    &&& f & ERR_CHUNK_NO_START == 0
    &&& (f & ERR_CHUNK_INCOMPLETE != 0 ==> f & ERR_SIGNAL_RECEIVED == 0)
    &&& (f & ERR_CONNECTION_CLOSED_WITOUT_FOLLOW_UP != 0 ==> f & ERR_CONNECTION_CLOSED != 0 && f & ERR_CHUNK_INCOMPLETE != 0)
}

proof fn lemma_flag_bits(f: u8)
    ensures
        (f & !1u8) & 1u8 == 0 && (f & !1u8) & 2u8 == f & 2u8 && (f & !1u8) & 4u8 == f & 4u8 && (f & !1u8) & 8u8 == f & 8u8
            && (f & !1u8) & 16u8 == f & 16u8,
        ((f & !8u8) & !1u8) & 1u8 == 0 && ((f & !8u8) & !1u8) & 8u8 == 0 && ((f & !8u8) & !1u8) & 2u8 == f & 2u8 && ((f
            & !8u8) & !1u8) & 4u8 == f & 4u8 && ((f & !8u8) & !1u8) & 16u8 == f & 16u8,
        (f | (4u8 | 8u8)) & 1u8 == f & 1u8 && (f | (4u8 | 8u8)) & 2u8 == f & 2u8 && (f | (4u8 | 8u8)) & 4u8 != 0 && (f
            | (4u8 | 8u8)) & 8u8 != 0 && (f | (4u8 | 8u8)) & 16u8 == f & 16u8,
        ((f | 16u8) & !1u8) & 1u8 == 0 && ((f | 16u8) & !1u8) & 2u8 == f & 2u8 && ((f | 16u8) & !1u8) & 4u8 == f & 4u8
            && ((f | 16u8) & !1u8) & 8u8 == f & 8u8 && ((f | 16u8) & !1u8) & 16u8 != 0,
        1u8 & 1u8 != 0 && 1u8 & 2u8 == 0 && 1u8 & 4u8 == 0 && 1u8 & 8u8 == 0 && 1u8 & 16u8 == 0,
{
    assert((f & !1u8) & 1u8 == 0 && (f & !1u8) & 2u8 == f & 2u8 && (f & !1u8) & 4u8 == f & 4u8 && (f & !1u8) & 8u8 == f
        & 8u8 && (f & !1u8) & 16u8 == f & 16u8) by (bit_vector);
    assert(((f & !8u8) & !1u8) & 1u8 == 0 && ((f & !8u8) & !1u8) & 8u8 == 0 && ((f & !8u8) & !1u8) & 2u8 == f & 2u8
        && ((f & !8u8) & !1u8) & 4u8 == f & 4u8 && ((f & !8u8) & !1u8) & 16u8 == f & 16u8) by (bit_vector);
    assert((f | (4u8 | 8u8)) & 1u8 == f & 1u8 && (f | (4u8 | 8u8)) & 2u8 == f & 2u8 && (f | (4u8 | 8u8)) & 4u8 != 0 && (f
        | (4u8 | 8u8)) & 8u8 != 0 && (f | (4u8 | 8u8)) & 16u8 == f & 16u8) by (bit_vector);
    assert(((f | 16u8) & !1u8) & 1u8 == 0 && ((f | 16u8) & !1u8) & 2u8 == f & 2u8 && ((f | 16u8) & !1u8) & 4u8 == f
        & 4u8 && ((f | 16u8) & !1u8) & 8u8 == f & 8u8 && ((f | 16u8) & !1u8) & 16u8 != 0) by (bit_vector);
    assert(1u8 & 1u8 != 0 && 1u8 & 2u8 == 0 && 1u8 & 4u8 == 0 && 1u8 & 8u8 == 0 && 1u8 & 16u8 == 0) by (bit_vector);
}

/// Whether a chunk being read waits for the follow-up of a closed connection.
pub open spec fn awaits_follow_up(m: ChunkModel) -> bool {
    m.chunk_parse_error & ERR_CONNECTION_CLOSED_WITOUT_FOLLOW_UP != 0
}

/// Once the chunk is closed, reading succeeds only where no line is left.
proof fn lemma_closed_leaves_nothing(label: Seq<char>, m: ChunkModel, ls: Seq<Seq<char>>)
    requires
        m.chunk_parse_error & ERR_CHUNK_INCOMPLETE == 0,
        run_lines(label, Some(m), ok_lines(ls)) matches Some(Ok(_)),
    ensures
        ls.len() == 0,
{
    if ls.len() > 0 {
        assert(ok_lines(ls)[0] == Ok::<Seq<char>, Seq<char>>(ls[0]));
        assert(line_step(m, ls[0]) is Fail);
    }
}

proof fn lemma_run_summary(label: Seq<char>, m: ChunkModel, ls: Seq<Seq<char>>, log: RsyncLogModel)
    requires
        run_lines(label, Some(m), ok_lines(ls)) == Some(Ok::<RsyncLogModel, Seq<char>>(log)),
        flag_shape(m.chunk_parse_error),
    ensures
        log.label == label,
        log.start_time == m.start_time,
        log.num_files_changed == m.num_files_changed + change_count(ls, awaits_follow_up(m)),
        log.total_bytes_sync == m.total_bytes_sync + change_sum(ls, awaits_follow_up(m), 4),
        log.total_bytes_sent == m.total_bytes_sent + change_sum(ls, awaits_follow_up(m), 5),
        last_time(ls, awaits_follow_up(m), m.end_time) == Some(log.end_time),
        ls.len() > 0 ==> flags_follow(log.chunk_parse_error, m.chunk_parse_error, ls, awaits_follow_up(m)),
    decreases ls.len(),
{
    let f = m.chunk_parse_error;
    lemma_flag_bits(f);
    if ls.len() > 0 {
        let l = ls[0];
        let rest = ls.drop_first();
        assert(ok_lines(ls)[0] == Ok::<Seq<char>, Seq<char>>(l));
        assert(ok_lines(ls).drop_first() =~= ok_lines(rest));
        let m2 = line_step(m, l)->Next_0;
        assert(line_step(m, l) is Next);
        assert(f & ERR_CHUNK_INCOMPLETE != 0);
        let f2 = m2.chunk_parse_error;
        lemma_flag_bits(f2);
        let nf = next_follows(l, awaits_follow_up(m));
        let acc2 = if awaits_follow_up(m) { m.end_time } else { Some(line_time(l)) };
        assert(m2.end_time == acc2);
        if rest.len() > 0 {
            assert(ok_lines(rest)[0] == Ok::<Seq<char>, Seq<char>>(rest[0]));
        } else {
            assert(change_count(rest, nf) == 0);
            assert(change_sum(rest, nf, 4) == 0);
            assert(change_sum(rest, nf, 5) == 0);
            assert(any_closed(rest, nf) == false);
            assert(last_time(rest, nf, acc2) == acc2);
        }
        assert(run_lines(label, Some(m2), ok_lines(rest)) == Some(Ok::<RsyncLogModel, Seq<char>>(log)));
        if awaits_follow_up(m) {
            assert(f2 == (f & !ERR_CONNECTION_CLOSED_WITOUT_FOLLOW_UP) & !ERR_CHUNK_INCOMPLETE);
            assert(f2 & ERR_CHUNK_INCOMPLETE == 0);
            lemma_closed_leaves_nothing(label, m2, rest);
        } else if is_end_line(l) {
            assert(f2 == f & !ERR_CHUNK_INCOMPLETE);
            assert(f2 & ERR_CHUNK_INCOMPLETE == 0);
            lemma_closed_leaves_nothing(label, m2, rest);
        } else if is_change_line(l) {
            if rest.len() > 0 {
                lemma_run_summary(label, m2, rest, log);
            }
        } else if is_closed_line(l) {
            if rest.len() > 0 {
                lemma_run_summary(label, m2, rest, log);
            }
        } else {
            assert(is_signal_line(l));
            assert(f2 == (f | ERR_SIGNAL_RECEIVED) & !ERR_CHUNK_INCOMPLETE);
            assert(f2 & ERR_CHUNK_INCOMPLETE == 0);
            lemma_closed_leaves_nothing(label, m2, rest);
        }
    }
}

/// What the summary of a chunk whose lines all read says of those lines: its label, the
/// start line's time, the number of file-change lines and the sums of their sizes, the time
/// of the last line that is not a follow-up, and each flag: a missing start never; an
/// unclosed chunk exactly where the last line is a file-change or connection-closed line;
/// a closed connection exactly where some line is one; an unanswered one exactly where the
/// last line is one; a signal exactly where the last line is a signal line (a follow-up
/// line being none of these).
pub proof fn lemma_summary_of_lines(label: Seq<char>, ls: Seq<Seq<char>>)
    requires
        spec_load_iter(label, ok_lines(ls)) matches Some(Ok(_)),
    ensures
        ls.len() >= 2,
        ({
            let log = spec_load_iter(label, ok_lines(ls))->Some_0->Ok_0;
            let rest = ls.drop_first();
            &&& log.label == label
            &&& log.start_time == log_datetime_timestamp(group(regex_captures(START_LINE@, ls[0])->Some_0, 1)->Some_0)->Ok_0
            &&& log.num_files_changed == change_count(rest, false)
            &&& log.total_bytes_sync == change_sum(rest, false, 4)
            &&& log.total_bytes_sent == change_sum(rest, false, 5)
            &&& Some(log.end_time) == last_time(rest, false, None)
            &&& flags_follow(log.chunk_parse_error, 0, rest, false)
        }),
{
    let log = spec_load_iter(label, ok_lines(ls))->Some_0->Ok_0;
    assert(ls.len() > 0);
    let rest = ls.drop_first();
    assert(ok_lines(ls)[0] == Ok::<Seq<char>, Seq<char>>(ls[0]));
    assert(ok_lines(ls).drop_first() =~= ok_lines(rest));
    let m0 = first_line_step(ls[0])->Next_0;
    assert(first_line_step(ls[0]) is Next);
    lemma_flag_bits(m0.chunk_parse_error);
    lemma_flag_bits(0u8);
    assert(m0.chunk_parse_error == ERR_CHUNK_INCOMPLETE);
    assert(patterns_error() is None);
    assert(run_lines(label, None, ok_lines(ls)) == Some(Ok::<RsyncLogModel, Seq<char>>(log)));
    assert(run_lines(label, Some(m0), ok_lines(rest)) == Some(Ok::<RsyncLogModel, Seq<char>>(log)));
    if rest.len() == 0 {
        assert(ok_lines(rest) =~= Seq::<Result<Seq<char>, Seq<char>>>::empty());
        assert(m0.end_time is None);
        assert(false);
    }
    lemma_run_summary(label, m0, rest, log);
    assert(log.label == label);
    assert(log.start_time == log_datetime_timestamp(group(regex_captures(START_LINE@, ls[0])->Some_0, 1)->Some_0)->Ok_0);
    assert(awaits_follow_up(m0) == false);
    assert(log.num_files_changed == change_count(rest, false));
    assert(Some(log.end_time) == last_time(rest, false, None));
    assert(0u8 & 4u8 == 0) by (bit_vector);
    assert(m0.chunk_parse_error & ERR_CONNECTION_CLOSED == 0);
    assert(flags_follow(log.chunk_parse_error, m0.chunk_parse_error, rest, false));
}


/// The final total size of a chunk after the lines `ls`, `acc` before them: group 5 of the
/// last line with the totals (a follow-up line being none), and `acc` where there is none.
pub open spec fn final_sync_after(ls: Seq<Seq<char>>, prev: bool, acc: int) -> int
    decreases ls.len(),
{
    if ls.len() == 0 {
        acc
    } else {
        final_sync_after(
            ls.drop_first(),
            next_follows(ls[0], prev),
            if !prev && is_end_line(ls[0]) { group_number(END_LINE@, ls[0], 5) } else { acc },
        )
    }
}

/// The final received count of a chunk after the lines `ls`, `acc` before them: group 4 of
/// the last line with the totals or group 3 of the last connection-closed line, whichever
/// comes last (a follow-up line being neither), and `acc` where there is none.
pub open spec fn final_sent_after(ls: Seq<Seq<char>>, prev: bool, acc: int) -> int
    decreases ls.len(),
{
    if ls.len() == 0 {
        acc
    } else {
        final_sent_after(
            ls.drop_first(),
            next_follows(ls[0], prev),
            if !prev && is_end_line(ls[0]) {
                group_number(END_LINE@, ls[0], 4)
            } else if !prev && is_closed_line(ls[0]) {
                group_number(CONNECTION_CLOSED_LINE@, ls[0], 3)
            } else {
                acc
            },
        )
    }
}

proof fn lemma_run_finals(label: Seq<char>, m: ChunkModel, ls: Seq<Seq<char>>, log: RsyncLogModel)
    requires
        run_lines(label, Some(m), ok_lines(ls)) == Some(Ok::<RsyncLogModel, Seq<char>>(log)),
        flag_shape(m.chunk_parse_error),
    ensures
        log.total_bytes_sync_final == final_sync_after(ls, awaits_follow_up(m), m.total_bytes_sync_final as int),
        log.total_bytes_sent_final == final_sent_after(ls, awaits_follow_up(m), m.total_bytes_sent_final as int),
    decreases ls.len(),
{
    let f = m.chunk_parse_error;
    lemma_flag_bits(f);
    if ls.len() > 0 {
        let l = ls[0];
        let rest = ls.drop_first();
        assert(ok_lines(ls)[0] == Ok::<Seq<char>, Seq<char>>(l));
        assert(ok_lines(ls).drop_first() =~= ok_lines(rest));
        assert(line_step(m, l) is Next);
        let m2 = line_step(m, l)->Next_0;
        assert(f & ERR_CHUNK_INCOMPLETE != 0);
        let f2 = m2.chunk_parse_error;
        lemma_flag_bits(f2);
        let nf = next_follows(l, awaits_follow_up(m));
        if rest.len() > 0 {
            assert(ok_lines(rest)[0] == Ok::<Seq<char>, Seq<char>>(rest[0]));
        } else {
            assert(ok_lines(rest).len() == 0);
            assert(log.total_bytes_sync_final == m2.total_bytes_sync_final);
            assert(log.total_bytes_sent_final == m2.total_bytes_sent_final);
            assert(final_sync_after(rest, nf, m2.total_bytes_sync_final as int) == m2.total_bytes_sync_final);
            assert(final_sent_after(rest, nf, m2.total_bytes_sent_final as int) == m2.total_bytes_sent_final);
        }
        assert(final_sync_after(ls, awaits_follow_up(m), m.total_bytes_sync_final as int) == final_sync_after(
            rest,
            nf,
            if !awaits_follow_up(m) && is_end_line(l) { group_number(END_LINE@, l, 5) } else { m.total_bytes_sync_final as int },
        ));
        assert(final_sent_after(ls, awaits_follow_up(m), m.total_bytes_sent_final as int) == final_sent_after(
            rest,
            nf,
            if !awaits_follow_up(m) && is_end_line(l) {
                group_number(END_LINE@, l, 4)
            } else if !awaits_follow_up(m) && is_closed_line(l) {
                group_number(CONNECTION_CLOSED_LINE@, l, 3)
            } else {
                m.total_bytes_sent_final as int
            },
        ));
        assert(run_lines(label, Some(m2), ok_lines(rest)) == Some(Ok::<RsyncLogModel, Seq<char>>(log)));
        if awaits_follow_up(m) {
            assert(f2 == (f & !ERR_CONNECTION_CLOSED_WITOUT_FOLLOW_UP) & !ERR_CHUNK_INCOMPLETE);
            lemma_closed_leaves_nothing(label, m2, rest);
            assert(m2.total_bytes_sync_final == m.total_bytes_sync_final);
            assert(m2.total_bytes_sent_final == m.total_bytes_sent_final);
        } else if is_end_line(l) {
            assert(f2 == f & !ERR_CHUNK_INCOMPLETE);
            lemma_closed_leaves_nothing(label, m2, rest);
            assert(m2.total_bytes_sync_final == group_number(END_LINE@, l, 5));
            assert(m2.total_bytes_sent_final == group_number(END_LINE@, l, 4));
        } else if is_change_line(l) {
            assert(!is_closed_line(l));
            assert(m2.total_bytes_sync_final == m.total_bytes_sync_final);
            assert(m2.total_bytes_sent_final == m.total_bytes_sent_final);
            if rest.len() > 0 {
                lemma_run_finals(label, m2, rest, log);
            }
        } else if is_closed_line(l) {
            assert(m2.total_bytes_sync_final == m.total_bytes_sync_final);
            assert(m2.total_bytes_sent_final == group_number(CONNECTION_CLOSED_LINE@, l, 3));
            if rest.len() > 0 {
                lemma_run_finals(label, m2, rest, log);
            }
        } else {
            assert(is_signal_line(l));
            assert(f2 == (f | ERR_SIGNAL_RECEIVED) & !ERR_CHUNK_INCOMPLETE);
            lemma_closed_leaves_nothing(label, m2, rest);
            assert(m2.total_bytes_sync_final == m.total_bytes_sync_final);
            assert(m2.total_bytes_sent_final == m.total_bytes_sent_final);
        }
    }
}

/// The final figures of a summary come from the closing lines alone: the final total size
/// is group 5 of the line with the totals, 0 where the chunk has none (a connection-closed
/// or signal line leaves it as it was); the final received count is group 4 of the line
/// with the totals or group 3 of the connection-closed line, 0 where there is neither
/// (a signal line or a file change leaves it as it was).
pub proof fn lemma_summary_final_figures(label: Seq<char>, ls: Seq<Seq<char>>)
    requires
        spec_load_iter(label, ok_lines(ls)) matches Some(Ok(_)),
    ensures
        ls.len() >= 2,
        ({
            let log = spec_load_iter(label, ok_lines(ls))->Some_0->Ok_0;
            let rest = ls.drop_first();
            &&& log.total_bytes_sync_final == final_sync_after(rest, false, 0)
            &&& log.total_bytes_sent_final == final_sent_after(rest, false, 0)
        }),
{
    lemma_summary_of_lines(label, ls);
    let log = spec_load_iter(label, ok_lines(ls))->Some_0->Ok_0;
    let rest = ls.drop_first();
    assert(ok_lines(ls)[0] == Ok::<Seq<char>, Seq<char>>(ls[0]));
    assert(ok_lines(ls).drop_first() =~= ok_lines(rest));
    let m0 = first_line_step(ls[0])->Next_0;
    assert(first_line_step(ls[0]) is Next);
    lemma_flag_bits(m0.chunk_parse_error);
    assert(m0.chunk_parse_error == ERR_CHUNK_INCOMPLETE);
    assert(run_lines(label, Some(m0), ok_lines(rest)) == Some(Ok::<RsyncLogModel, Seq<char>>(log)));
    lemma_run_finals(label, m0, rest, log);
    assert(awaits_follow_up(m0) == false);
}


/// What loading a chunk from raw input comes to: the summary to store; the error to answer
/// with, where there was nothing to read (or a pattern did not compile, before any line);
/// or the place where the whole input is saved and the error that names it.
#[derive(Debug, Clone, PartialEq, Eq)]
pub enum LoadOutcome {
    Store(RsyncLog),
    Fail(String),
    Save { path: String, message: String },
}

/// The line number of the last line read (counted from one; one where none was read).
pub open spec fn last_line_number(n: nat) -> nat {
    if n > 0 {
        n
    } else {
        1
    }
}

/// The bytes of the last line read, without its newline (none where none was read).
pub open spec fn last_line_bytes(data: Seq<u8>, n: nat) -> Seq<u8> {
    if n > 0 {
        strip_newline(split_pieces(data, 10)[n - 1])
    } else {
        Seq::empty()
    }
}

/// What loading a chunk from `data` comes to, with failed chunks saved in `folder`: a chunk
/// that does not read (for any error but an empty input) is saved as
/// `<folder>/<SHA-1 of the lines read, in hexadecimal>.chunk`, and the error names the
/// number and text of the last line read and that place. `None` where reading aborts.
pub open spec fn spec_load_outcome(label: Seq<char>, data: Seq<u8>, folder: Seq<char>) -> Option<
    Result<RsyncLogModel, (Seq<char>, Option<Seq<char>>)>,
> {
    let lines = decoded_lines(data);
    let n = spec_lines_read(lines);
    match spec_load_iter(label, lines) {
        None => None,
        Some(Ok(log)) => Some(Ok(log)),
        Some(Err(e)) => if e == no_content() {
            Some(Err((e, None)))
        } else {
            let path = spec_failed_chunk_path(
                folder,
                spec_hex(sha1_digest(concat_pieces(split_pieces(data, 10).take(n as int)))),
            );
            Some(
                Err(
                    (
                        spec_failed_chunk_message(
                            crate::text::spec_digits(last_line_number(n)),
                            e,
                            last_line_bytes(data, n),
                            path,
                        ),
                        Some(path),
                    ),
                ),
            )
        },
    }
}

/// An outcome, as a model: the summary, or the error with the place the chunk is saved.
pub open spec fn outcome_view(r: LoadOutcome) -> Result<RsyncLogModel, (Seq<char>, Option<Seq<char>>)> {
    match r {
        LoadOutcome::Store(l) => Ok(l@),
        LoadOutcome::Fail(e) => Err((e@, None)),
        LoadOutcome::Save { path, message } => Err((message@, Some(path@))),
    }
}

/// What loading a chunk from `data` comes to, failed chunks being saved in `folder`.
pub fn load_outcome(label: &str, data: Vec<u8>, folder: &str) -> (r: Option<LoadOutcome>)
    ensures
        match (r, spec_load_outcome(label@, data@, folder@)) {
            (None, None) => true,
            (Some(a), Some(b)) => outcome_view(a) == b,
            _ => false,
        },
{
    let ghost d = data@;
    let copy = data.clone();
    let reading = match read_chunk(label, data) {
        None => {
            return None;
        },
        Some(x) => x,
    };
    match reading.result {
        Ok(log) => Some(LoadOutcome::Store(log)),
        Err(e) => {
            if !saves_failed_chunk(&e) {
                return Some(LoadOutcome::Fail(e));
            }
            let prefix = vstd::slice::slice_subrange(copy.as_slice(), 0, reading.bytes_read);
            assert(prefix@ =~= d.take(reading.bytes_read as int));
            let digest = crate::digest::sha1_hex(prefix);
            let path = failed_chunk_path(folder, digest.as_str());
            proof {
                if reading.lines_read > 0 {
                    assert(reading.last_index + 1 == reading.lines_read);
                }
            }
            let message = failed_chunk_message(reading.last_index, e.as_str(), reading.last_line.as_slice(), path.as_str());
            Some(LoadOutcome::Save { path, message })
        },
    }
}

} // verus!
