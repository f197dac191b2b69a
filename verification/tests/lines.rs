use flate2::write::GzEncoder;
use flate2::Compression;
use rsync_chunks::lines::{file_lines, first_read, last_read, text_lines};
use rsync_chunks::next::LineRead;
use std::io::{BufRead, Write};

fn std_lines(data: &[u8]) -> Vec<Result<String, String>> {
    data.lines().map(|l| l.map_err(|e| e.to_string())).collect()
}

fn gz(data: &[u8]) -> Vec<u8> {
    let mut e = GzEncoder::new(Vec::new(), Compression::default());
    e.write_all(data).unwrap();
    e.finish().unwrap()
}

#[test]
fn lines_are_read_as_std_reads_them() {
    let inputs: Vec<Vec<u8>> = vec![
        b"".to_vec(),
        b"a".to_vec(),
        b"a\n".to_vec(),
        b"a\r\nb\rc\n\n".to_vec(),
        b"\n\n".to_vec(),
        b"one\ntwo\nthree".to_vec(),
        vec![0x61, 0xff, 0x0a, 0x62, 0x0a],
        b"\r\n".to_vec(),
        "é\n".as_bytes().to_vec(),
    ];
    for data in inputs {
        assert_eq!(text_lines(data.clone(), None), std_lines(&data), "{:?}", data);
    }
}

#[test]
fn an_error_ends_the_lines() {
    assert_eq!(
        text_lines(b"a\nb\npartial".to_vec(), Some("boom".to_string())),
        vec![Ok("a".to_string()), Ok("b".to_string()), Err("boom".to_string())]
    );
    assert_eq!(
        text_lines(b"a\n".to_vec(), Some("boom".to_string())),
        vec![Ok("a".to_string()), Err("boom".to_string())]
    );
    assert_eq!(text_lines(Vec::new(), Some("boom".to_string())), vec![Err("boom".to_string())]);
}

#[test]
fn gzipped_files_are_decompressed() {
    let text = b"2023/02/27 02:28:40 [1] receiving file list\nsecond\n";
    assert_eq!(file_lines("/l/r_2023-02-27.log.gz", gz(text), None), std_lines(text));
    assert_eq!(file_lines("/l/r.log", text.to_vec(), None), std_lines(text));
}

#[test]
fn broken_gzip_reports_its_error() {
    let lines = file_lines("/l/r.log.gz", b"not gzip at all".to_vec(), None);
    assert_eq!(lines.len(), 1);
    assert!(lines[0].is_err());
    let mut cut = gz(b"first line\nsecond line\n");
    cut.truncate(cut.len() - 4);
    let lines = file_lines("/l/r.log.gz", cut, None);
    assert!(lines.last().unwrap().is_err());
}

#[test]
fn read_error_stops_a_gzipped_file_too() {
    let data = gz(b"x\n");
    assert_eq!(
        file_lines("/l/r.log.gz", data, Some("disk error".to_string())),
        vec![Ok("x".to_string()), Err("disk error".to_string())]
    );
}

#[test]
fn first_and_last_lines() {
    let ls: Result<Vec<Result<String, String>>, String> =
        Ok(vec![Ok("a".to_string()), Ok("b".to_string()), Err("e".to_string())]);
    assert_eq!(first_read(&ls), LineRead::Line("a".to_string()));
    assert_eq!(last_read(&ls), LineRead::ReadError("e".to_string()));
    let none: Result<Vec<Result<String, String>>, String> = Ok(vec![]);
    assert_eq!(first_read(&none), LineRead::NoLine);
    assert_eq!(last_read(&none), LineRead::NoLine);
    let shut: Result<Vec<Result<String, String>>, String> = Err("no file".to_string());
    assert_eq!(first_read(&shut), LineRead::OpenError("no file".to_string()));
    assert_eq!(last_read(&shut), LineRead::OpenError("no file".to_string()));
}
