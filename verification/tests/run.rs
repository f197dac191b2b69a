use rsync_chunks::next::{cursor_file_content, LineRead, NextState};
use rsync_chunks::run::{next_run, RunEffect};

const START: &str = "2023/02/27 02:28:40 [12759] receiving file list";
const CHANGE: &str = "2023/02/27 02:28:41 [12759] >f..t...... recv weave/failed/forms.json 10 34";
const CHANGE_2: &str = "2023/02/27 02:28:42 [12759] >f+++++++++ recv a/b.txt 200 50";
const END: &str = "2023/02/27 02:28:43 [12759] sent 1234 bytes  received 5678 bytes  total size 91011";
const OLD: &str = "/l/r_2023-02-27.log";
const LIVE: &str = "/l/r.log";

type Lines = Result<Vec<Result<String, String>>, String>;

fn lines(ls: &[&str]) -> Lines {
    Ok(ls.iter().map(|l| Ok(l.to_string())).collect())
}

fn fresh() -> NextState {
    NextState {
        cts: 0,
        foffset: 0,
        cfile: String::new(),
        cfile_first_line: String::new(),
        file_rotated: false,
        first_match_line_nb: 0,
    }
}

fn texts(ls: &[&str]) -> Vec<String> {
    ls.iter().map(|l| l.to_string()).collect()
}

#[test]
fn chunk_over_two_files_goes_through_the_content_file() {
    let files = vec![(OLD.to_string(), lines(&[START, CHANGE])), (LIVE.to_string(), lines(&[CHANGE_2, END, START]))];
    let (effects, answer) =
        next_run(fresh(), &files, None, "/s/content", LIVE, LineRead::Line(CHANGE_2.to_string())).unwrap();
    assert_eq!(answer, Ok(true));
    assert_eq!(
        effects,
        vec![
            RunEffect::Append(texts(&[START, CHANGE])),
            RunEffect::Emit(texts(&[CHANGE_2, END])),
            RunEffect::WriteCursor(cursor_file_content(1677464923, 2, LIVE, CHANGE_2)),
        ]
    );
}

#[test]
fn run_without_chunk_only_appends_and_writes_the_cursor() {
    let files = vec![(LIVE.to_string(), lines(&[START, CHANGE]))];
    let (effects, answer) =
        next_run(fresh(), &files, None, "/s/content", LIVE, LineRead::Line(START.to_string())).unwrap();
    assert_eq!(answer, Ok(false));
    assert_eq!(
        effects,
        vec![
            RunEffect::Append(texts(&[START, CHANGE])),
            RunEffect::WriteCursor(cursor_file_content(1677464921, 2, LIVE, START)),
        ]
    );
}

#[test]
fn unreadable_content_file_is_reported_with_its_path() {
    let (effects, answer) = next_run(
        fresh(),
        &vec![],
        Some(Err("denied".to_string())),
        "/s/content",
        LIVE,
        LineRead::Line(START.to_string()),
    )
    .unwrap();
    assert!(effects.is_empty());
    assert_eq!(answer, Err("Error opening /s/content: denied".to_string()));
}

#[test]
fn search_stops_at_a_line_that_does_not_read() {
    let files = vec![(LIVE.to_string(), Ok(vec![Ok(START.to_string()), Ok(CHANGE.to_string()), Err("bad".to_string())]))];
    let (effects, answer) =
        next_run(fresh(), &files, None, "/s/content", LIVE, LineRead::Line(START.to_string())).unwrap();
    assert!(effects.is_empty());
    assert_eq!(answer, Err("bad".to_string()));
}
