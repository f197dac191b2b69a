use rsync_chunks::digest::sha1_hex;
use rsync_chunks::import::{load_outcome, LoadOutcome};
use rsync_chunks::cli::action::import::run;
use rsync_chunks::import::{
    decode_line, failed_chunk_message, failed_chunk_path, hex_dump, load_iter, BufReadExt,
    read_chunk, ChunkParser, RsyncLog, SplitWithDelimiter, ERR_CHUNK_INCOMPLETE, ERR_CONNECTION_CLOSED,
    ERR_CONNECTION_CLOSED_WITOUT_FOLLOW_UP, ERR_SIGNAL_RECEIVED,
};

const START: &str = "2023/02/27 02:28:40 [12759] receiving file list";
const CHANGE_1: &str = "2023/02/27 02:28:41 [12759] >f..t...... recv weave/failed/forms.json 10 34";
const CHANGE_2: &str = "2023/02/27 02:28:42 [12759] >f+++++++++ recv a/b.txt 200 50";
const END: &str = "2023/02/27 02:28:43 [12759] sent 1234 bytes  received 5678 bytes  total size 91011";
const CLOSED: &str = "2023/02/27 02:28:44 [12759] rsync: connection unexpectedly closed (1234 bytes received so far) [generator]";
const FOLLOW_UP: &str = "2023/02/27 02:28:45 [12759] rsync error: error in rsync protocol data stream (code 12) at io.c(228) [receiver=3.1.3]";
const SIGNAL: &str = "2023/02/27 02:28:46 [12759] rsync error: received SIGINT, SIGTERM, or SIGHUP (code 20) at rsync.c(644) [receiver=3.1.3]";

fn lines(ls: &[&str]) -> Vec<Result<String, String>> {
    ls.iter().map(|l| Ok(l.to_string())).collect()
}

fn load(ls: &[&str]) -> Result<RsyncLog, String> {
    load_iter("backup", &lines(ls)).expect("reading does not abort")
}

#[test]
fn complete_chunk_is_summed_up() {
    let log = load(&[START, CHANGE_1, CHANGE_2, END]).unwrap();
    assert_eq!(
        log,
        RsyncLog {
            label: "backup".to_string(),
            start_time: 1677464920,
            end_time: 1677464923,
            total_bytes_sync: 210,
            total_bytes_sent: 84,
            total_bytes_sync_final: 91011,
            total_bytes_sent_final: 5678,
            num_files_changed: 2,
            chunk_parse_error: 0,
        }
    );
}

#[test]
fn empty_input_has_no_content() {
    assert_eq!(load(&[]).err(), Some("No content".to_string()));
}

#[test]
fn chunk_must_start_with_start_line() {
    assert_eq!(load(&[CHANGE_1, END]).err(), Some("Unexpected start line format".to_string()));
}

#[test]
fn lines_after_end_line_are_refused() {
    assert_eq!(
        load(&[START, END, CHANGE_1]).err(),
        Some("Unexpected lines found after the end line".to_string())
    );
}

#[test]
fn pid_change_is_refused() {
    let other = "2023/02/27 02:28:41 [999] >f..t...... recv x 1 2";
    assert_eq!(
        load(&[START, other]).err(),
        Some("Unexpected PID change from 12759 to 999 on file change line".to_string())
    );
    let other_end = "2023/02/27 02:28:43 [998] sent 1 bytes  received 2 bytes  total size 3";
    assert_eq!(
        load(&[START, other_end]).err(),
        Some("Unexpected PID change from 12759 to 998 on last chunk line".to_string())
    );
}

#[test]
fn unknown_line_is_refused() {
    assert_eq!(
        load(&[START, "hello"]).err(),
        Some("Unexpected log line format".to_string())
    );
}

#[test]
fn start_line_alone_is_no_chunk() {
    assert_eq!(load(&[START]).err(), Some("No lines found in the chunk".to_string()));
}

#[test]
fn unfinished_chunk_is_flagged_incomplete() {
    let log = load(&[START, CHANGE_1]).unwrap();
    assert_eq!(log.chunk_parse_error, ERR_CHUNK_INCOMPLETE);
    assert_eq!(log.end_time, 1677464921);
    assert_eq!(log.num_files_changed, 1);
}

#[test]
fn closed_connection_without_follow_up_is_flagged() {
    let log = load(&[START, CHANGE_1, CLOSED]).unwrap();
    assert_eq!(
        log.chunk_parse_error,
        ERR_CHUNK_INCOMPLETE | ERR_CONNECTION_CLOSED | ERR_CONNECTION_CLOSED_WITOUT_FOLLOW_UP
    );
    assert_eq!(log.end_time, 1677464924);
    assert_eq!(log.total_bytes_sent_final, 1234);
}

#[test]
fn closed_connection_with_follow_up_closes_the_chunk() {
    let log = load(&[START, CHANGE_1, CLOSED, FOLLOW_UP]).unwrap();
    assert_eq!(log.chunk_parse_error, ERR_CONNECTION_CLOSED);
    assert_eq!(log.end_time, 1677464924);
    assert_eq!(
        load(&[START, CLOSED, FOLLOW_UP, CHANGE_1]).err(),
        Some("Unexpected lines found after the end line".to_string())
    );
}

#[test]
fn closed_connection_needs_its_follow_up() {
    assert_eq!(
        load(&[START, CLOSED, CHANGE_1]).err(),
        Some("Expected follow-up line after connection closed".to_string())
    );
}

#[test]
fn signal_closes_the_chunk() {
    let log = load(&[START, CHANGE_1, SIGNAL]).unwrap();
    assert_eq!(log.chunk_parse_error, ERR_SIGNAL_RECEIVED);
    assert_eq!(log.end_time, 1677464926);
}

#[test]
fn read_error_stops_the_chunk() {
    let ls = vec![Ok(START.to_string()), Err("Invalid UTF-8 data [ff]".to_string())];
    assert_eq!(
        load_iter("x", &ls).unwrap().err(),
        Some("Invalid UTF-8 data [ff]".to_string())
    );
}

#[test]
fn bad_date_and_number_are_reported() {
    assert_eq!(
        load(&["2023/02/30 02:28:40 [1] receiving file list"]).err(),
        Some("Failed to parse \"2023/02/30 02:28:40\" as a date (input is out of range) on first chunk line".to_string())
    );
    let big = "2023/02/27 02:28:41 [12759] >f..t...... recv x 99999999999999999999 2";
    assert_eq!(
        load(&[START, big]).err(),
        Some("Failed to parse file size \"99999999999999999999\" as an i64 integer (number too large to fit in target type) on file change line".to_string())
    );
}

#[test]
fn overflowing_total_aborts() {
    let huge = "2023/02/27 02:28:41 [12759] >f..t...... recv x 9223372036854775807 2";
    assert!(load_iter("x", &lines(&[START, huge, huge])).is_none());
}

#[test]
fn parser_keeps_its_state_on_error() {
    let mut p = ChunkParser::new("lbl").unwrap();
    assert_eq!(p.feed(START), Ok(()));
    assert_eq!(p.feed("nonsense"), Err("Unexpected log line format".to_string()));
    assert_eq!(p.try_feed(END), Some(Ok(())));
    let log = p.finish().unwrap();
    assert_eq!(log.label, "lbl");
    assert_eq!(log.chunk_parse_error, 0);
}

#[test]
fn split_with_delimiter_keeps_the_delimiters() {
    let mut sp = SplitWithDelimiter::new(b"ab\ncd\n\nef".to_vec(), b'\n');
    let mut pieces = Vec::new();
    while let Some(p) = sp.next_piece() {
        pieces.push(p);
    }
    assert_eq!(pieces, vec![b"ab\n".to_vec(), b"cd\n".to_vec(), b"\n".to_vec(), b"ef".to_vec()]);
    assert_eq!(pieces.concat(), b"ab\ncd\n\nef".to_vec());
    assert_eq!(sp.next_piece(), None);
    let mut none = b"".to_vec().split_with_delimiter(b'\n');
    assert_eq!(none.next_piece(), None);
    let mut one = b"xyz\n".to_vec().split_with_delimiter(b'\n');
    assert_eq!(one.next_piece(), Some(b"xyz\n".to_vec()));
    assert_eq!(one.next_piece(), None);
}

#[test]
fn hex_dump_separates_bytes() {
    assert_eq!(hex_dump(&[0xde, 0xad, 0xbe, 0xef]), "de ad be ef");
    assert_eq!(hex_dump(&[0x0a]), "0a");
    assert_eq!(hex_dump(&[]), "");
}

#[test]
fn hex_dump_places_two_digits_per_byte() {
    let data: Vec<u8> = (0u8..=255).collect();
    let out = hex_dump(&data);
    assert_eq!(out.len(), 3 * data.len() - 1);
    for (i, b) in data.iter().enumerate() {
        assert_eq!(&out[3 * i..3 * i + 2], format!("{:02x}", b));
        if i + 1 < data.len() {
            assert_eq!(&out[3 * i + 2..3 * i + 3], " ");
        }
    }
}

#[test]
fn decode_line_strips_newline_and_checks_utf8() {
    assert_eq!(decode_line(b"abc\n".to_vec()), (b"abc".to_vec(), Ok("abc".to_string())));
    assert_eq!(decode_line(b"abc".to_vec()), (b"abc".to_vec(), Ok("abc".to_string())));
    assert_eq!(
        decode_line(vec![0x61, 0xff, 0x0a]),
        (vec![0x61, 0xff], Err("Invalid UTF-8 data [61 ff]".to_string()))
    );
}

#[test]
fn failed_chunk_is_reported_with_its_place() {
    let path = failed_chunk_path("/tmp/failed", "0123abcd");
    assert_eq!(path, "/tmp/failed/0123abcd.chunk");
    assert_eq!(
        failed_chunk_message(2, "Unexpected log line format", b"bad line", &path),
        "(Line 3) Unexpected log line format:\n  bad line\n\n  Failed chunk is saved to \"/tmp/failed/0123abcd.chunk\""
    );
    assert_eq!(
        failed_chunk_message(0, "e", &[0x61, 0xff], "p"),
        "(Line 1) e:\n  a\u{fffd}\n\n  Failed chunk is saved to \"p\""
    );
}

#[test]
fn import_answer_follows_the_load() {
    assert_eq!(run(Ok(())), Ok(true));
    assert_eq!(run(Err("No content".to_string())), Ok(false));
    assert_eq!(run(Err("boom".to_string())), Err("boom".to_string()));
}

#[test]
fn raw_chunk_is_read_line_by_line() {
    let data = format!("{}\n{}\n{}\n", START, CHANGE_1, END).into_bytes();
    let r = read_chunk("raw", data.clone()).unwrap();
    assert_eq!(r.result.as_ref().unwrap().end_time, 1677464923);
    assert_eq!(r.result.as_ref().unwrap().label, "raw");
    assert_eq!(r.lines_read, 3);
    assert_eq!(r.bytes_read, data.len());
    assert_eq!(r.last_index, 2);
    assert_eq!(r.last_line, END.as_bytes().to_vec());
}

#[test]
fn raw_chunk_stops_at_the_refused_line() {
    let data = format!("{}\nnonsense\n{}\n", START, END).into_bytes();
    let r = read_chunk("raw", data).unwrap();
    assert_eq!(r.result.err(), Some("Unexpected log line format".to_string()));
    assert_eq!(r.lines_read, 2);
    assert_eq!(r.bytes_read, START.len() + 1 + "nonsense\n".len());
    assert_eq!(r.last_index, 1);
    assert_eq!(r.last_line, b"nonsense".to_vec());
}

#[test]
fn raw_chunk_reports_bytes_that_are_not_text() {
    let mut data = format!("{}\n", START).into_bytes();
    data.extend_from_slice(&[0x61, 0xff, 0x0a]);
    data.extend_from_slice(END.as_bytes());
    let r = read_chunk("raw", data).unwrap();
    assert_eq!(r.result.err(), Some("Invalid UTF-8 data [61 ff]".to_string()));
    assert_eq!(r.lines_read, 2);
    assert_eq!(r.last_line, vec![0x61, 0xff]);
}

#[test]
fn raw_empty_input_reads_nothing() {
    let r = read_chunk("raw", Vec::new()).unwrap();
    assert_eq!(r.result.err(), Some("No content".to_string()));
    assert_eq!((r.lines_read, r.bytes_read, r.last_index), (0, 0, 0));
    assert!(r.last_line.is_empty());
}

#[test]
fn raw_last_line_may_lack_its_newline() {
    let data = format!("{}\n{}", START, END).into_bytes();
    let r = read_chunk("raw", data.clone()).unwrap();
    assert!(r.result.is_ok());
    assert_eq!(r.bytes_read, data.len());
    assert_eq!(r.last_line, END.as_bytes().to_vec());
}

#[test]
fn failed_chunk_is_named_by_the_lines_read() {
    let data = format!("{}\nnonsense\n{}\n", START, END).into_bytes();
    let prefix = format!("{}\nnonsense\n", START).into_bytes();
    let path = format!("/tmp/failed/{}.chunk", sha1_hex(&prefix));
    assert_eq!(
        load_outcome("x", data, "/tmp/failed"),
        Some(LoadOutcome::Save {
            path: path.clone(),
            message: format!("(Line 2) Unexpected log line format:\n  nonsense\n\n  Failed chunk is saved to {:?}", path),
        })
    );
    assert_eq!(load_outcome("x", Vec::new(), "/f"), Some(LoadOutcome::Fail("No content".to_string())));
    let ok = format!("{}\n{}\n", START, END).into_bytes();
    assert!(matches!(load_outcome("x", ok, "/f"), Some(LoadOutcome::Store(_))));
}
