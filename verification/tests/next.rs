use rsync_chunks::cli::action::next::{
    chunk_state_dir, cursor_state_dir, log_file_path, missing_file_message,
};
use rsync_chunks::next::{
    after_append, cursor_file_content, cursor_file_read, date_time_of, file_name_date,
    file_step, finish_state, keep_log_file, log_file_patterns, log_file_stem, pid_of,
    start_state, trim_end_or_error, ts_day_trim, Cursor, FileStep, LineRead, NextState,
};

const LOG: &str = "/var/log/rsyncd.log";
const START: &str = "2023/02/27 02:28:40 [12759] receiving file list";
const CHANGE: &str = "2023/02/27 02:28:41 [12759] >f..t...... recv weave/failed/forms.json 10 34";
const CHANGE_2: &str = "2023/02/27 02:28:42 [12759] >f+++++++++ recv a/b.txt 200 50";
const END: &str = "2023/02/27 02:28:43 [12759] sent 1234 bytes  received 5678 bytes  total size 91011";
const OTHER_PID: &str = "2023/02/27 02:28:44 [4242] receiving file list";

fn lines(ls: &[&str]) -> Result<Vec<Result<String, String>>, String> {
    Ok(ls.iter().map(|l| Ok(l.to_string())).collect())
}

fn fresh() -> NextState {
    NextState {
        cts: 0,
        foffset: 0,
        cfile: String::new(),
        cfile_first_line: String::new(),
        file_rotated: false,
        first_match_line_nb: 0,
    }
}

#[test]
fn trim_end_or_error_removes_the_suffix() {
    assert_eq!(trim_end_or_error("/a/b.log", ".log"), Ok("/a/b".to_string()));
    assert_eq!(trim_end_or_error("x", ""), Ok("x".to_string()));
    assert_eq!(
        trim_end_or_error("/a/b.txt", ".log"),
        Err("The string '/a/b.txt' does not end with '.log'".to_string())
    );
    assert_eq!(
        trim_end_or_error("og", ".log"),
        Err("The string 'og' does not end with '.log'".to_string())
    );
}

#[test]
fn log_file_stem_requires_log_extension() {
    assert_eq!(log_file_stem(LOG), Ok("/var/log/rsyncd".to_string()));
    assert_eq!(
        log_file_stem("/var/log/rsyncd.txt"),
        Err("Unexpected extension to target log file name \"/var/log/rsyncd.txt\" (it is required to end with '.log')".to_string())
    );
}

#[test]
fn cursor_text_reads_back() {
    let text = cursor_file_content(1677464923, 12, LOG, START);
    assert_eq!(text, format!("1677464923\0{}\0{}\0{}\0", 12, LOG, START));
    let c = cursor_file_read(Some(text.as_bytes())).unwrap();
    assert_eq!(
        c,
        Cursor { cts: 1677464923, foffset: 12, cfile: LOG.to_string(), first_line: START.to_string() }
    );
    let neg = cursor_file_content(-5, -1, "", "");
    assert_eq!(neg, "-5\0-1\0\0\0");
    assert_eq!(
        cursor_file_read(Some(neg.as_bytes())),
        Ok(Cursor { cts: -5, foffset: -1, cfile: String::new(), first_line: String::new() })
    );
}

#[test]
fn missing_cursor_file_starts_from_nothing() {
    assert_eq!(
        cursor_file_read(None),
        Ok(Cursor { cts: 0, foffset: 0, cfile: String::new(), first_line: String::new() })
    );
}

#[test]
fn last_value_may_lack_its_nul() {
    assert_eq!(
        cursor_file_read(Some(b"1\x002\x00f\x00line")),
        Ok(Cursor { cts: 1, foffset: 2, cfile: "f".to_string(), first_line: "line".to_string() })
    );
}

#[test]
fn corrupted_cursor_files_are_refused() {
    assert_eq!(
        cursor_file_read(Some(b"1\x002\x00f\x00")).err(),
        Some("Cursor file is corrupted (not enough values)".to_string())
    );
    assert_eq!(
        cursor_file_read(Some(b"")).err(),
        Some("Cursor file is corrupted (not enough values)".to_string())
    );
    assert_eq!(
        cursor_file_read(Some(b"1\x002\x00f\x00l\x00extra\x00")).err(),
        Some("Cursor file is corrupted (too many values)".to_string())
    );
    assert_eq!(
        cursor_file_read(Some(b"abc\x002\x00f\x00l\x00")).err(),
        Some("Could not read cursor timestamp data \"abc\": invalid digit found in string".to_string())
    );
    assert_eq!(
        cursor_file_read(Some(b"1\x00x\x00f\x00l\x00")).err(),
        Some("invalid digit found in string".to_string())
    );
    assert_eq!(
        cursor_file_read(Some(b"1\x002\x00\xff\x00l\x00")).err(),
        Some("Bad format".to_string())
    );
}

#[test]
fn file_name_dates() {
    assert_eq!(file_name_date("rsyncd_2023-02-27.log.gz"), Ok(Some(1677456000)));
    assert_eq!(file_name_date("rsyncd_2023-02-27.log"), Ok(Some(1677456000)));
    assert_eq!(file_name_date("rsyncd.log"), Ok(None));
    assert_eq!(file_name_date("my_rsyncd_2023-02-28.log"), Ok(Some(1677542400)));
    assert_eq!(file_name_date("rsyncd_notadate.log"), Ok(None));
    assert_eq!(file_name_date("rsyncd_2023-02-30.log"), Ok(None));
}

#[test]
fn day_trim_goes_to_midnight() {
    assert_eq!(ts_day_trim(1677464923), Ok(1677456000));
    assert_eq!(ts_day_trim(1677456000), Ok(1677456000));
    assert_eq!(ts_day_trim(0), Ok(0));
    assert_eq!(ts_day_trim(-1), Ok(-86400));
    assert_eq!(ts_day_trim(i64::MAX), Err("Couldn't parse cursor date".to_string()));
}

#[test]
fn log_files_before_the_cursor_day_are_skipped() {
    assert_eq!(keep_log_file("rsyncd_2023-02-26.log.gz", 1677456000), Ok(false));
    assert_eq!(keep_log_file("rsyncd_2023-02-27.log.gz", 1677456000), Ok(true));
    assert_eq!(keep_log_file("rsyncd.log", 1677456000), Ok(true));
}

#[test]
fn glob_patterns_of_a_log() {
    assert_eq!(
        log_file_patterns("/var/log/rsyncd"),
        vec![
            "/var/log/rsyncd_[0-9][0-9][0-9][0-9]-[0-9][0-9]-[0-9][0-9].log.gz".to_string(),
            "/var/log/rsyncd_[0-9][0-9][0-9][0-9]-[0-9][0-9]-[0-9][0-9].log".to_string(),
            "/var/log/rsyncd.log".to_string(),
        ]
    );
}

#[test]
fn line_fields() {
    assert_eq!(pid_of(START), Some("12759".to_string()));
    assert_eq!(pid_of("a b"), None);
    assert_eq!(pid_of("a b [[7]]"), Some("7".to_string()));
    assert_eq!(date_time_of(START), "2023/02/27 02:28:40");
    assert_eq!(date_time_of("single"), "single");
}

#[test]
fn start_state_from_cursor() {
    let c = Cursor { cts: 1677464923, foffset: 3, cfile: String::new(), first_line: String::new() };
    let (st, day) = start_state(&c, None).unwrap();
    assert_eq!(day, 1677456000);
    assert_eq!(st, NextState { cts: 1677464923, foffset: 3, ..fresh() });

    let c = Cursor { cts: 1677464923, foffset: 3, cfile: LOG.to_string(), first_line: START.to_string() };
    let (st, _) = start_state(&c, Some(LineRead::Line(START.to_string()))).unwrap();
    assert!(!st.file_rotated);
    let (st, _) = start_state(&c, Some(LineRead::Line(OTHER_PID.to_string()))).unwrap();
    assert!(st.file_rotated);
    let (st, _) = start_state(&c, Some(LineRead::NoLine)).unwrap();
    assert!(st.file_rotated);
    assert_eq!(
        start_state(&c, Some(LineRead::ReadError("boom".to_string()))).err(),
        Some(format!("Error while reading first line from {}\n  boom", LOG))
    );
    assert_eq!(
        start_state(&c, Some(LineRead::OpenError("no file".to_string()))).err(),
        Some("no file".to_string())
    );
}

#[test]
fn complete_chunk_is_handed_out() {
    let step = file_step(&fresh(), LOG, &lines(&[START, CHANGE, END, START]), &None);
    let cursor = cursor_file_content(1677464923, 3, LOG, START);
    assert_eq!(step, FileStep::Emit(0, 3, Some(Ok(cursor))));
}

#[test]
fn chunk_running_past_the_file_is_appended() {
    let step = file_step(&fresh(), LOG, &lines(&[START, CHANGE]), &None);
    assert_eq!(step, FileStep::Append(NextState { cfile: LOG.to_string(), ..fresh() }, 0));
}

#[test]
fn chunk_ends_at_another_pid() {
    let step = file_step(&fresh(), LOG, &lines(&[START, CHANGE, OTHER_PID]), &None);
    let cursor = cursor_file_content(1677464921, 2, LOG, START);
    assert_eq!(step, FileStep::Emit(0, 2, Some(Ok(cursor))));
}

#[test]
fn chunk_goes_on_from_the_content_file() {
    let st = NextState { cfile: LOG.to_string(), foffset: 2, ..fresh() };
    let step = file_step(
        &st,
        LOG,
        &lines(&[START, CHANGE, CHANGE_2, END]),
        &Some(LineRead::Line(START.to_string())),
    );
    let cursor = cursor_file_content(1677464923, 4, LOG, START);
    assert_eq!(step, FileStep::Emit(2, 2, Some(Ok(cursor))));
}

#[test]
fn search_starts_at_the_cursor_offset() {
    let st = NextState { cfile: LOG.to_string(), foffset: 3, ..fresh() };
    let step = file_step(&st, LOG, &lines(&[START, CHANGE, END, START, CHANGE_2, END]), &None);
    let cursor = cursor_file_content(1677464923, 6, LOG, START);
    assert_eq!(step, FileStep::Emit(3, 3, Some(Ok(cursor))));
}

#[test]
fn lines_before_the_start_are_refused() {
    let step = file_step(&fresh(), LOG, &lines(&["junk", START, END]), &None);
    assert_eq!(
        step,
        FileStep::Fail(format!("Unexpected 1 lines before beg line:\njunk\n{}", START))
    );
}

#[test]
fn file_without_start_is_skipped() {
    let step = file_step(&fresh(), LOG, &lines(&["junk", "more junk"]), &None);
    assert_eq!(step, FileStep::Skip(fresh()));
}

#[test]
fn rotated_file_must_match_the_cursor() {
    let st = NextState {
        cfile: "/var/log/old.log".to_string(),
        cfile_first_line: START.to_string(),
        file_rotated: true,
        ..fresh()
    };
    let step = file_step(&st, LOG, &lines(&[OTHER_PID]), &None);
    assert_eq!(step, FileStep::Fail("Lost our previous reference !".to_string()));
    let step = file_step(&st, LOG, &lines(&[]), &None);
    assert_eq!(step, FileStep::Fail("Lost our previous reference !".to_string()));
    let step = file_step(&st, LOG, &lines(&[START, END]), &None);
    let cursor = cursor_file_content(1677464923, 2, LOG, START);
    assert_eq!(step, FileStep::Emit(0, 2, Some(Ok(cursor))));
}

#[test]
fn unreadable_file_fails_the_step() {
    let step = file_step(&fresh(), LOG, &Err("Error while opening x: gone".to_string()), &None);
    assert_eq!(step, FileStep::Fail("Error while opening x: gone".to_string()));
}

#[test]
fn offset_moves_by_the_appended_lines() {
    let st = NextState { foffset: 5, ..fresh() };
    assert_eq!(after_append(st.clone(), 2, 7), Some(NextState { foffset: 10, ..fresh() }));
    let top = NextState { foffset: i64::MAX, ..fresh() };
    assert_eq!(after_append(top, 0, 1), None);
}

#[test]
fn cursor_when_no_chunk_was_found() {
    let st = NextState { cts: 77, foffset: 9, ..fresh() };
    assert_eq!(
        finish_state(&st, LOG, LineRead::Line(START.to_string()), None),
        Ok(cursor_file_content(77, 9, LOG, START))
    );
    assert_eq!(
        finish_state(&st, LOG, LineRead::NoLine, Some(LineRead::Line(CHANGE.to_string()))),
        Ok(cursor_file_content(1677464921, 9, LOG, ""))
    );
    assert_eq!(
        finish_state(&st, LOG, LineRead::NoLine, Some(LineRead::NoLine)),
        Err("Couldn't read last line from content file".to_string())
    );
    assert_eq!(
        finish_state(&st, LOG, LineRead::OpenError("Error opening x".to_string()), None),
        Err("Error opening x".to_string())
    );
}

#[test]
fn log_file_path_is_normalized() {
    assert_eq!(log_file_path("/var/log/../log/rsyncd.log", None), Ok(LOG.to_string()));
    assert_eq!(log_file_path("rsyncd.log", Some(Ok("/var/log".to_string()))), Ok(LOG.to_string()));
    assert_eq!(
        log_file_path("rsyncd.log", Some(Err("gone".to_string()))),
        Err("Couldn't normalize path for 'rsyncd.log': gone.".to_string())
    );
    assert_eq!(missing_file_message(LOG), "No such file as '/var/log/rsyncd.log'.");
}

#[test]
fn cursor_directory_is_named_by_the_log_path_digest() {
    assert_eq!(chunk_state_dir(Some("/state".to_string()), "tool"), "/state");
    assert_eq!(chunk_state_dir(None, "tool"), "/var/spool/tool");
    assert_eq!(
        cursor_state_dir("/state", LOG, "default"),
        "/state/9aef5f36d9665b55aede5cad9c41546f2c0aed40/default"
    );
}

#[test]
fn handed_out_chunk_is_whole() {
    let all = [
        "noise",
        START,
        CHANGE,
        CHANGE_2,
        "2023/02/27 02:28:42 [777] >f..t...... recv other 1 1",
        END,
    ];
    let st = NextState { cfile: LOG.to_string(), foffset: 1, ..fresh() };
    let ls = lines(&all);
    match file_step(&st, LOG, &ls, &None) {
        FileStep::Emit(from, count, Some(Ok(cursor))) => {
            let v = ls.unwrap();
            let chunk: Vec<String> = v[from..from + count].iter().map(|l| l.clone().unwrap()).collect();
            assert_eq!(chunk, vec![START.to_string(), CHANGE.to_string(), CHANGE_2.to_string()]);
            assert!(chunk.iter().all(|l| pid_of(l) == Some("12759".to_string())));
            let c = cursor_file_read(Some(cursor.as_bytes())).unwrap();
            assert_eq!(c.foffset as usize, from + count);
            assert_eq!(c.cfile, LOG);
        }
        other => panic!("unexpected step {:?}", other),
    }
}

#[test]
fn next_run_resumes_after_the_chunk() {
    let all = [START, CHANGE, END, START, CHANGE_2, END];
    let ls = lines(&all);
    let (from, count, text) = match file_step(&fresh(), LOG, &ls, &None) {
        FileStep::Emit(from, count, Some(Ok(text))) => (from, count, text),
        other => panic!("unexpected step {:?}", other),
    };
    let c = cursor_file_read(Some(text.as_bytes())).unwrap();
    let (st, _) = start_state(&c, Some(LineRead::Line(START.to_string()))).unwrap();
    assert!(!st.file_rotated);
    assert_eq!(st.foffset as usize, from + count);
    assert_eq!(st.cfile, LOG);
    // The second chunk is found right where the first one ended.
    match file_step(&st, LOG, &ls, &None) {
        FileStep::Emit(from2, count2, _) => assert_eq!((from2, count2), (3, 3)),
        other => panic!("unexpected step {:?}", other),
    }
}

#[test]
fn rotated_file_is_followed_by_its_first_line() {
    let old = Cursor { cts: 1677464923, foffset: 3, cfile: "/var/log/old.log".to_string(), first_line: START.to_string() };
    let (rotated, d1) = start_state(&old, Some(LineRead::Line(OTHER_PID.to_string()))).unwrap();
    assert!(rotated.file_rotated);
    let moved = Cursor { cfile: LOG.to_string(), ..old.clone() };
    let (plain, d2) = start_state(&moved, Some(LineRead::Line(START.to_string()))).unwrap();
    assert!(!plain.file_rotated);
    assert_eq!(d1, d2);
    let ls = lines(&[START, CHANGE, END, START, CHANGE_2, END]);
    assert_eq!(file_step(&rotated, LOG, &ls, &None), file_step(&plain, LOG, &ls, &None));
}

#[test]
fn ts_day_trim_gives_start_of_utc_day() {
    for ts in [-86401i64, -86400, -3600, 1, 86399, 86400, 951782400, 1677464921, 4102444799] {
        assert_eq!(ts_day_trim(ts), Ok(ts - ts.rem_euclid(86400)));
    }
}
