//! The lines of a file's bytes, as `BufRead::lines` hands them out; a gzip-compressed
//! file (`.gz`) is decompressed first with `flate2`.

use vstd::prelude::*;
use vstd::utf8::{decode_utf8, valid_utf8};
use std::io::Read;
use crate::import::{lines_view, split_pieces, BufReadExt};
use crate::next::{LineRead, LineReadModel};
use crate::text::utf8_string;
use crate::utils::{has_gz_extension, spec_has_gz_extension};

verus! {

/// What reading `flate2::read::GzDecoder::new(data)` to its end gives: the bytes it
/// decompressed before it stopped, and the text of the error that stopped it, if any.
pub uninterp spec fn gunzip_result(data: Seq<u8>) -> (Seq<u8>, Option<Seq<char>>);

/// An optional text, as a model.
pub open spec fn text_view(t: Option<String>) -> Option<Seq<char>> {
    match t {
        Some(s) => Some(s@),
        None => None,
    }
}

/// Decompresses gzip data (its first member) with `flate2::read::GzDecoder` and
/// `Read::read_to_end`, which keeps the bytes decompressed before an error. Claimed: the
/// bytes and the error text are those of `gunzip_result(data)`.
#[verifier::external_body]
pub(crate) fn gunzip(data: &[u8]) -> (r: (Vec<u8>, Option<String>))
    ensures
        r.0@ == gunzip_result(data@).0,
        text_view(r.1) == gunzip_result(data@).1,
{
    let mut out = Vec::new();
    let err = flate2::read::GzDecoder::new(data).read_to_end(&mut out).err().map(|e| e.to_string());
    (out, err)
}

/// A raw line without its line end: a final `\n`, and then a `\r` before it.
pub open spec fn line_end_stripped(p: Seq<u8>) -> Seq<u8> {
    if p.len() > 0 && p.last() == 10 {
        let q = p.drop_last();
        if q.len() > 0 && q.last() == 13 {
            q.drop_last()
        } else {
            q
        }
    } else {
        p
    }
}

/// The text of the error a line that is not UTF-8 reads as.
pub open spec fn invalid_utf8_message() -> Seq<char> {
    "stream did not contain valid UTF-8"@
}

/// One raw line read as text, without its line end.
pub open spec fn spec_read_line(p: Seq<u8>) -> Result<Seq<char>, Seq<char>> {
    if valid_utf8(line_end_stripped(p)) {
        Ok(decode_utf8(line_end_stripped(p)))
    } else {
        Err(invalid_utf8_message())
    }
}

/// The lines read from `data`. Where reading stopped on an error (`stop`), a last line that
/// it cut short is lost and the error comes last.
pub open spec fn spec_text_lines(data: Seq<u8>, stop: Option<Seq<char>>) -> Seq<Result<Seq<char>, Seq<char>>> {
    let ps = split_pieces(data, 10);
    match stop {
        None => ps.map_values(|p: Seq<u8>| spec_read_line(p)),
        Some(e) => {
            let whole = if ps.len() > 0 && ps.last().last() != 10 {
                ps.drop_last()
            } else {
                ps
            };
            whole.map_values(|p: Seq<u8>| spec_read_line(p)).push(Err(e))
        },
    }
}

/// One raw line read as text, without its line end.
fn read_line(piece: Vec<u8>) -> (r: Result<String, String>)
    ensures
        match (r, spec_read_line(piece@)) {
            (Ok(a), Ok(b)) => a@ == b,
            (Err(a), Err(b)) => a@ == b,
            _ => false,
        },
{
    let mut line = piece;
    if line.len() > 0 && line[line.len() - 1] == 10u8 {
        line.pop();
        if line.len() > 0 && line[line.len() - 1] == 13u8 {
            line.pop();
        }
    }
    match utf8_string(line) {
        Ok(s) => Ok(s),
        Err(_) => Err("stream did not contain valid UTF-8".to_owned()),
    }
}

/// The lines read from `data`, with the error that stopped reading, if any, last.
pub fn text_lines(data: Vec<u8>, stop: Option<String>) -> (r: Vec<Result<String, String>>)
    ensures
        lines_view(r@) == spec_text_lines(data@, text_view(stop)),
{
    let ghost ps = split_pieces(data@, 10);
    let ghost whole = if text_view(stop) is Some && ps.len() > 0 && ps.last().last() != 10 {
        ps.drop_last()
    } else {
        ps
    };
    let ghost want = whole.map_values(|p: Seq<u8>| spec_read_line(p));
    proof {
        crate::import::lemma_split_pieces(data@, 10);
        crate::import::lemma_pieces_count(data@, 10);
    }
    let dlen = data.len();
    assert(ps.len() <= dlen);
    let mut pieces = data.split_with_delimiter(10);
    let mut out: Vec<Result<String, String>> = Vec::new();
    let mut n: usize = 0;
    assert(ps.skip(0) =~= ps);
    assert(lines_view(out@) =~= want.take(0));
    loop
        invariant_except_break
            pieces.remaining() == ps.skip(n as int),
            n <= whole.len(),
            lines_view(out@) == want.take(n as int),
        invariant
            ps.len() <= dlen,
            pieces.delimiter() == 10,
            forall|i: int| 0 <= i < ps.len() ==> #[trigger] ps[i].len() > 0,
            forall|i: int| 0 <= i < ps.len() - 1 ==> #[trigger] ps[i].last() == 10,
            whole == (if text_view(stop) is Some && ps.len() > 0 && ps.last().last() != 10 {
                ps.drop_last()
            } else {
                ps
            }),
            want == whole.map_values(|p: Seq<u8>| spec_read_line(p)),
        ensures
            n == whole.len(),
            lines_view(out@) == want.take(n as int),
        decreases ps.len() - n,
    {
        let piece = match pieces.next_piece() {
            None => {
                assert(n == ps.len());
                break;
            },
            Some(p) => p,
        };
        assert(piece@ == ps[n as int]);
        if stop.is_some() && piece[piece.len() - 1] != 10u8 {
            assert(n == ps.len() - 1) by {
                if n < ps.len() - 1 {
                    assert(ps[n as int].last() == 10);
                }
            }
            break;
        }
        proof {
            if n == ps.len() - 1 {
                assert(ps.last() == piece@);
            }
            assert(n < whole.len());
            assert(want[n as int] == spec_read_line(piece@));
        }
        let line = read_line(piece);
        let ghost before = out@;
        out.push(line);
        assert(lines_view(out@) =~= lines_view(before).push(want[n as int]));
        assert(want.take(n + 1) =~= want.take(n as int).push(want[n as int]));
        n = n + 1;
    }
    assert(want.take(n as int) =~= want);
    match stop {
        None => {
            assert(whole == ps);
            out
        },
        Some(e) => {
            let ghost before = out@;
            out.push(Err(e));
            assert(lines_view(out@) =~= lines_view(before).push(Err(text_view(stop)->Some_0)));
            out
        },
    }
}

/// The lines of a file of the log, as read: a gzip-compressed file (its name ends with
/// `.gz`) is decompressed first. `read_error` is the error that stopped reading the file's
/// bytes, if any; it is also where decompressing the bytes read stops.
pub open spec fn spec_file_lines(path: Seq<char>, data: Seq<u8>, read_error: Option<Seq<char>>) -> Seq<
    Result<Seq<char>, Seq<char>>,
> {
    if spec_has_gz_extension(path) {
        let (bytes, e) = gunzip_result(data);
        spec_text_lines(bytes, if read_error is Some { read_error } else { e })
    } else {
        spec_text_lines(data, read_error)
    }
}

/// The lines of the file at `path`, from its bytes as read.
pub fn file_lines(path: &str, data: Vec<u8>, read_error: Option<String>) -> (r: Vec<Result<String, String>>)
    ensures
        lines_view(r@) == spec_file_lines(path@, data@, text_view(read_error)),
{
    if has_gz_extension(path) {
        let (bytes, e) = gunzip(data.as_slice());
        let stop = match read_error {
            Some(m) => Some(m),
            None => e,
        };
        text_lines(bytes, stop)
    } else {
        text_lines(data, read_error)
    }
}

/// The lines of a file as read (`Err` where it did not open), as a model.
pub open spec fn opened_lines_view(lines: Result<Vec<Result<String, String>>, String>) -> Result<
    Seq<Result<Seq<char>, Seq<char>>>,
    Seq<char>,
> {
    match lines {
        Ok(v) => Ok(lines_view(v@)),
        Err(m) => Err(m@),
    }
}

/// How reading the first line of a file went.
pub open spec fn spec_first_read(lines: Result<Seq<Result<Seq<char>, Seq<char>>>, Seq<char>>) -> LineReadModel {
    match lines {
        Err(m) => LineReadModel::OpenError(m),
        Ok(ls) => if ls.len() == 0 {
            LineReadModel::NoLine
        } else {
            match ls[0] {
                Err(e) => LineReadModel::ReadError(e),
                Ok(l) => LineReadModel::Line(l),
            }
        },
    }
}

/// How reading the first line of a file went, from its lines.
pub fn first_read(lines: &Result<Vec<Result<String, String>>, String>) -> (r: LineRead)
    ensures
        r@ == spec_first_read(opened_lines_view(*lines)),
{
    match lines {
        Err(m) => LineRead::OpenError(m.clone()),
        Ok(ls) => {
            if ls.len() == 0 {
                LineRead::NoLine
            } else {
                assert(lines_view(ls@)[0] == (match ls@[0] { Ok(s) => Ok(s@), Err(e) => Err(e@) }));
                match &ls[0] {
                    Err(e) => LineRead::ReadError(e.clone()),
                    Ok(l) => LineRead::Line(l.clone()),
                }
            }
        },
    }
}

/// How reading the last line of a file went.
pub open spec fn spec_last_read(lines: Result<Seq<Result<Seq<char>, Seq<char>>>, Seq<char>>) -> LineReadModel {
    match lines {
        Err(m) => LineReadModel::OpenError(m),
        Ok(ls) => if ls.len() == 0 {
            LineReadModel::NoLine
        } else {
            match ls.last() {
                Err(e) => LineReadModel::ReadError(e),
                Ok(l) => LineReadModel::Line(l),
            }
        },
    }
}

/// How reading the last line of a file went, from its lines.
pub fn last_read(lines: &Result<Vec<Result<String, String>>, String>) -> (r: LineRead)
    ensures
        r@ == spec_last_read(opened_lines_view(*lines)),
{
    match lines {
        Err(m) => LineRead::OpenError(m.clone()),
        Ok(ls) => {
            if ls.len() == 0 {
                LineRead::NoLine
            } else {
                let k = ls.len() - 1;
                assert(lines_view(ls@)[k as int] == (match ls@[k as int] { Ok(s) => Ok(s@), Err(e) => Err(e@) }));
                match &ls[k] {
                    Err(e) => LineRead::ReadError(e.clone()),
                    Ok(l) => LineRead::Line(l.clone()),
                }
            }
        },
    }
}

} // verus!
