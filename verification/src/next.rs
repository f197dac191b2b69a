//! Finding the next complete chunk in a rotating rsync log: the cursor that remembers
//! how far the log has been read, the names of rotated log files, and the search for the
//! first and last line of a chunk.

use vstd::prelude::*;
use vstd::string::*;
use vstd::utf8::{decode_utf8, encode_utf8, valid_utf8};
use crate::clock::{file_date_midnight, log_datetime_timestamp, parse_file_date, parse_log_datetime, result_view, utc_date_of, utc_midnight, utc_midnight_timestamp, utc_ymd};
use crate::import::{fits_i64, lines_view, piece_len, split_pieces, SplitWithDelimiter};
use crate::pattern::{compile, is_match, regex_is_match, regex_new_result};
use crate::text::{
    chars_of, debug_str, decimal_chars, int_error_string, int_error_text, parse_i64_str,
    spec_decimal, spec_parse_i64, str_debug, string_of, utf8_string, IntErrorKind,
};

verus! {

/// `s` without the suffix `pattern`, or why not.
pub open spec fn spec_trim_end_or_error(s: Seq<char>, pattern: Seq<char>) -> Result<Seq<char>, Seq<char>> {
    if pattern.len() <= s.len() && s.subrange(s.len() - pattern.len(), s.len() as int) == pattern {
        Ok(s.subrange(0, s.len() - pattern.len()))
    } else {
        Err("The string '"@ + s + "' does not end with '"@ + pattern + "'"@)
    }
}

/// `s` without the suffix `pattern`; an error naming both where `s` does not end with it.
pub fn trim_end_or_error(s: &str, pattern: &str) -> (r: Result<String, String>)
    ensures
        match (r, spec_trim_end_or_error(s@, pattern@)) {
            (Ok(a), Ok(b)) => a@ == b,
            (Err(a), Err(b)) => a@ == b,
            _ => false,
        },
{
    let sv = chars_of(s);
    let pv = chars_of(pattern);
    let mut ends = pv.len() <= sv.len();
    if ends {
        let slen = sv.len();
        let off = slen - pv.len();
        let mut i: usize = 0;
        while i < pv.len()
            invariant
                off == sv@.len() - pv@.len(),
                pv@.len() <= sv@.len(),
                slen == sv@.len(),
                i <= pv@.len(),
                ends == (forall|k: int| 0 <= k < i ==> sv@[off + k] == pv@[k]),
            decreases pv.len() - i,
        {
            if sv[off + i] != pv[i] {
                ends = false;
            }
            i = i + 1;
        }
        proof {
            if ends {
                assert(sv@.subrange(off as int, sv@.len() as int) =~= pv@);
            } else {
                assert(sv@.subrange(off as int, sv@.len() as int) != pv@ ) by {
                    let k = choose|k: int| 0 <= k < pv@.len() && sv@[off + k] != pv@[k];
                    assert(sv@.subrange(off as int, sv@.len() as int)[k] == sv@[off + k]);
                }
            }
        }
    }
    if ends {
        let n = sv.len() - pv.len();
        let mut kept = sv;
        kept.truncate(n);
        Ok(string_of(kept.as_slice()))
    } else {
        let mut msg = "The string '".to_owned();
        msg.append(s);
        msg.append("' does not end with '");
        msg.append(pattern);
        msg.append("'");
        Err(msg)
    }
}


/// Trimming a suffix that was just appended gives the string back, and a string that
/// trims to `u` is `u` followed by the suffix.
pub proof fn lemma_trim_end_roundtrip(t: Seq<char>, pattern: Seq<char>, s: Seq<char>)
    ensures
        spec_trim_end_or_error(t + pattern, pattern) == Ok::<Seq<char>, Seq<char>>(t),
        spec_trim_end_or_error(s, pattern) matches Ok(u) ==> u + pattern == s,
{
    let tp = t + pattern;
    assert(tp.subrange(tp.len() - pattern.len(), tp.len() as int) =~= pattern);
    assert(tp.subrange(0, tp.len() - pattern.len()) =~= t);
    if pattern.len() <= s.len() && s.subrange(s.len() - pattern.len(), s.len() as int) == pattern {
        assert(s.subrange(0, s.len() - pattern.len()) + pattern =~= s);
    }
}

/// The cursor of a log: the time of the last chunk handed out, how many lines of the
/// current file are done, which file that is, and that file's first line (to notice
/// when it has been rotated).
#[derive(Debug, Clone, PartialEq, Eq)]
pub struct Cursor {
    pub cts: i64,
    pub foffset: i64,
    pub cfile: String,
    pub first_line: String,
}

/// The mathematical value of a `Cursor`.
pub struct CursorModel {
    pub cts: i64,
    pub foffset: i64,
    pub cfile: Seq<char>,
    pub first_line: Seq<char>,
}

impl View for Cursor {
    type V = CursorModel;

    open spec fn view(&self) -> CursorModel {
        CursorModel { cts: self.cts, foffset: self.foffset, cfile: self.cfile@, first_line: self.first_line@ }
    }
}

/// The cursor of a log that has not been read yet.
pub open spec fn empty_cursor() -> CursorModel {
    CursorModel { cts: 0, foffset: 0, cfile: Seq::empty(), first_line: Seq::empty() }
}

/// A value of the cursor file without its terminating NUL, if it has one.
pub open spec fn strip_nul(p: Seq<u8>) -> Seq<u8> {
    if p.len() > 0 && p.last() == 0 {
        p.drop_last()
    } else {
        p
    }
}

/// The text of a value of the cursor file, where it is UTF-8.
pub open spec fn piece_text(p: Seq<u8>) -> Option<Seq<char>> {
    if valid_utf8(strip_nul(p)) {
        Some(decode_utf8(strip_nul(p)))
    } else {
        None
    }
}

/// Reading the values of a cursor file from the `idx`-th on: the timestamp, the offset,
/// the file and its first line, each ended by a NUL.
pub open spec fn read_cursor_values(ps: Seq<Seq<u8>>, idx: nat, acc: CursorModel) -> Result<CursorModel, Seq<char>>
    decreases ps.len(),
{
    if ps.len() == 0 {
        if idx != 4 {
            Err("Cursor file is corrupted (not enough values)"@)
        } else {
            Ok(acc)
        }
    } else {
        match piece_text(ps[0]) {
            None => Err("Bad format"@),
            Some(t) => if idx == 0 {
                match spec_parse_i64(t) {
                    Err(k) => Err("Could not read cursor timestamp data "@ + str_debug(t) + ": "@ + int_error_text(k)),
                    Ok(v) => read_cursor_values(ps.drop_first(), 1, CursorModel { cts: v, ..acc }),
                }
            } else if idx == 1 {
                match spec_parse_i64(t) {
                    Err(k) => Err(int_error_text(k)),
                    Ok(v) => read_cursor_values(ps.drop_first(), 2, CursorModel { foffset: v, ..acc }),
                }
            } else if idx == 2 {
                read_cursor_values(ps.drop_first(), 3, CursorModel { cfile: t, ..acc })
            } else if idx == 3 {
                read_cursor_values(ps.drop_first(), 4, CursorModel { first_line: t, ..acc })
            } else {
                Err("Cursor file is corrupted (too many values)"@)
            },
        }
    }
}

/// What the cursor file says: the empty cursor where there is no file (`None`), else
/// its four NUL-ended values.
pub open spec fn spec_cursor_file_read(content: Option<Seq<u8>>) -> Result<CursorModel, Seq<char>> {
    match content {
        None => Ok(empty_cursor()),
        Some(bytes) => read_cursor_values(split_pieces(bytes, 0), 0, empty_cursor()),
    }
}

/// The outcome of reading a cursor, as a model.
pub open spec fn cursor_result_view(r: Result<Cursor, String>) -> Result<CursorModel, Seq<char>> {
    match r {
        Ok(c) => Ok(c@),
        Err(e) => Err(e@),
    }
}

/// Reads the cursor file's content (`None` where there is no cursor file).
pub fn cursor_file_read(content: Option<&[u8]>) -> (r: Result<Cursor, String>)
    ensures
        cursor_result_view(r) == spec_cursor_file_read(
            match content {
                Some(b) => Some(b@),
                None => None,
            },
        ),
{
    let bytes = match content {
        None => {
            return Ok(Cursor { cts: 0, foffset: 0, cfile: String::new(), first_line: String::new() });
        },
        Some(b) => b,
    };
    let mut data: Vec<u8> = Vec::new();
    data.extend_from_slice(bytes);
    assert(data@ =~= bytes@);
    let mut split = SplitWithDelimiter::new(data, 0);
    let mut cur = Cursor { cts: 0, foffset: 0, cfile: String::new(), first_line: String::new() };
    let mut idx: usize = 0;
    loop
        invariant
            idx <= 4,
            content == Some(bytes),
            split.delimiter() == 0,
            read_cursor_values(split.remaining(), idx as nat, cur@) == read_cursor_values(
                split_pieces(bytes@, 0),
                0,
                empty_cursor(),
            ),
        decreases split.remaining().len(),
    {
        let ghost ps = split.remaining();
        let piece = match split.next_piece() {
            None => {
                assert(ps.len() == 0);
                if idx != 4 {
                    return Err("Cursor file is corrupted (not enough values)".to_owned());
                }
                return Ok(cur);
            },
            Some(p) => p,
        };
        assert(piece@ == ps[0]);
        let mut buffer = piece;
        if buffer.len() > 0 && buffer[buffer.len() - 1] == 0u8 {
            buffer.pop();
        }
        assert(buffer@ == strip_nul(ps[0]));
        let text = match utf8_string(buffer) {
            Err(_) => { return Err("Bad format".to_owned()); },
            Ok(t) => t,
        };
        if idx == 0 {
            match parse_i64_str(text.as_str()) {
                Err(k) => {
                    let mut msg = "Could not read cursor timestamp data ".to_owned();
                    let dbg = debug_str(text.as_str());
                    let kt = int_error_string(k);
                    msg.append(dbg.as_str());
                    msg.append(": ");
                    msg.append(kt.as_str());
                    return Err(msg);
                },
                Ok(v) => { cur.cts = v; },
            }
        } else if idx == 1 {
            match parse_i64_str(text.as_str()) {
                Err(k) => { return Err(int_error_string(k)); },
                Ok(v) => { cur.foffset = v; },
            }
        } else if idx == 2 {
            cur.cfile = text;
        } else if idx == 3 {
            cur.first_line = text;
        } else {
            return Err("Cursor file is corrupted (too many values)".to_owned());
        }
        idx = idx + 1;
    }
}

/// The text of the cursor file: `format!("{:?}\0{}\0{}\0{}\0", cts, foffset, cfile, first_line)`.
pub open spec fn spec_cursor_text(c: CursorModel) -> Seq<char> {
    spec_decimal(c.cts as int) + seq!['\0'] + spec_decimal(c.foffset as int) + seq!['\0'] + c.cfile + seq!['\0']
        + c.first_line + seq!['\0']
}

/// The text the cursor file is written with.
pub fn cursor_file_content(cts: i64, foffset: i64, cfile: &str, first_line: &str) -> (r: String)
    ensures
        r@ == spec_cursor_text(CursorModel { cts, foffset, cfile: cfile@, first_line: first_line@ }),
{
    let mut v: Vec<char> = decimal_chars(cts);
    v.push('\0');
    let mut f = decimal_chars(foffset);
    v.append(&mut f);
    v.push('\0');
    let mut c = chars_of(cfile);
    v.append(&mut c);
    v.push('\0');
    let mut l = chars_of(first_line);
    v.append(&mut l);
    v.push('\0');
    string_of(v.as_slice())
}

proof fn lemma_encode_concat(a: Seq<char>, b: Seq<char>)
    ensures
        encode_utf8(a + b) == encode_utf8(a) + encode_utf8(b),
    decreases a.len(),
{
    if a.len() > 0 {
        lemma_encode_concat(a.drop_first(), b);
        assert((a + b).drop_first() =~= a.drop_first() + b);
        assert((a + b)[0] == a[0]);
        assert(encode_utf8(a) + encode_utf8(b) =~= vstd::utf8::encode_scalar(a[0] as u32) + (encode_utf8(a.drop_first()) + encode_utf8(b)));
    } else {
        assert(a + b =~= b);
    }
}

proof fn lemma_encode_scalar_nonzero(v: u32)
    requires
        v != 0,
        vstd::utf8::is_scalar(v),
    ensures
        forall|k: int| 0 <= k < vstd::utf8::encode_scalar(v).len() ==> #[trigger] vstd::utf8::encode_scalar(v)[k] != 0,
{
    assert(v != 0 && v <= 0x7f ==> (v & 0x7Fu32) as u8 != 0) by (bit_vector);
    assert(0xC0u8 | ((v >> 6u32) & 0x1Fu32) as u8 != 0) by (bit_vector);
    assert(0xE0u8 | ((v >> 12u32) & 0x0Fu32) as u8 != 0) by (bit_vector);
    assert(0xF0u8 | ((v >> 18u32) & 0x7u32) as u8 != 0) by (bit_vector);
    assert(0x80u8 | (v & 0x3Fu32) as u8 != 0) by (bit_vector);
    assert(0x80u8 | ((v >> 6u32) & 0x3Fu32) as u8 != 0) by (bit_vector);
    assert(0x80u8 | ((v >> 12u32) & 0x3Fu32) as u8 != 0) by (bit_vector);
}

proof fn lemma_encode_no_nul(a: Seq<char>)
    requires
        !a.contains('\0'),
    ensures
        !encode_utf8(a).contains(0u8),
    decreases a.len(),
{
    if a.len() > 0 {
        assert(!a.drop_first().contains('\0')) by {
            if a.drop_first().contains('\0') {
                let k = choose|k: int| 0 <= k < a.drop_first().len() && a.drop_first()[k] == '\0';
                assert(a[k + 1] == '\0');
            }
        }
        lemma_encode_no_nul(a.drop_first());
        let v = a[0] as u32;
        vstd::utf8::char_is_scalar(a[0]);
        assert(a[0] != '\0');
        assert(v != 0) by {
            vstd::utf8::char_u32_cast(a[0], v);
        }
        lemma_encode_scalar_nonzero(v);
        let e = encode_utf8(a);
        let e0 = vstd::utf8::encode_scalar(v);
        let er = encode_utf8(a.drop_first());
        assert(e =~= e0 + er);
        if e.contains(0u8) {
            let k = choose|k: int| 0 <= k < e.len() && e[k] == 0u8;
            if k < e0.len() {
                assert(e0[k] == 0u8);
            } else {
                assert(er[k - e0.len()] == 0u8);
            }
        }
    }
}

proof fn lemma_encode_nul()
    ensures
        encode_utf8(seq!['\0']) == seq![0u8],
{
    assert(('\0' as u32) == 0u32);
    assert((0u32 & 0x7Fu32) as u8 == 0u8) by (bit_vector);
    assert(seq!['\0'].drop_first() =~= Seq::<char>::empty());
    assert(encode_utf8(seq!['\0']) =~= vstd::utf8::encode_scalar(0u32) + encode_utf8(Seq::<char>::empty()));
}

proof fn lemma_piece_len_no_delim(a: Seq<u8>, rest: Seq<u8>)
    requires
        !a.contains(0u8),
    ensures
        piece_len(a + seq![0u8] + rest, 0) == a.len() + 1,
    decreases a.len(),
{
    let s = a + seq![0u8] + rest;
    if a.len() == 0 {
        assert(s[0] == 0u8);
    } else {
        assert(s[0] == a[0]);
        assert(!a.drop_first().contains(0u8)) by {
            if a.drop_first().contains(0u8) {
                let k = choose|k: int| 0 <= k < a.drop_first().len() && a.drop_first()[k] == 0u8;
                assert(a[k + 1] == 0u8);
            }
        }
        lemma_piece_len_no_delim(a.drop_first(), rest);
        assert(s.drop_first() =~= a.drop_first() + seq![0u8] + rest);
    }
}

/// One NUL-ended value at the front of a cursor file: its piece is the value's bytes and
/// the NUL, and its text is the value.
proof fn lemma_value_piece(t: Seq<char>, rest: Seq<u8>)
    requires
        !t.contains('\0'),
    ensures
        split_pieces(encode_utf8(t + seq!['\0']) + rest, 0) == seq![encode_utf8(t) + seq![0u8]]
            + split_pieces(rest, 0),
        piece_text(encode_utf8(t) + seq![0u8]) == Some(t),
{
    lemma_encode_concat(t, seq!['\0']);
    lemma_encode_nul();
    lemma_encode_no_nul(t);
    let a = encode_utf8(t);
    let s = a + seq![0u8] + rest;
    assert(encode_utf8(t + seq!['\0']) + rest =~= s);
    lemma_piece_len_no_delim(a, rest);
    assert(s.take(a.len() + 1int) =~= a + seq![0u8]);
    assert(s.skip(a.len() + 1int) =~= rest);
    assert(strip_nul(a + seq![0u8]) =~= a);
    vstd::utf8::encode_utf8_valid_utf8(t);
    vstd::utf8::encode_utf8_decode_utf8(t);
}

proof fn lemma_digits_no_nul(n: nat)
    ensures
        !crate::text::spec_digits(n).contains('\0'),
        !crate::text::spec_digits(n).contains('-'),
    decreases n,
{
    let d = crate::text::spec_digits(n);
    if n >= 10 {
        lemma_digits_no_nul(n / 10);
    }
    assert forall|k: int| 0 <= k < d.len() implies d[k] != '\0' && d[k] != '-' by {
        if n >= 10 && k < d.len() - 1 {
            assert(d[k] == crate::text::spec_digits(n / 10)[k]);
        }
    }
}

proof fn lemma_decimal_no_nul(v: int)
    ensures
        !spec_decimal(v).contains('\0'),
{
    let d = spec_decimal(v);
    if v < 0 {
        lemma_digits_no_nul((-v) as nat);
        assert forall|k: int| 0 <= k < d.len() implies d[k] != '\0' by {
            if k > 0 {
                assert(d[k] == crate::text::spec_digits((-v) as nat)[k - 1]);
            }
        }
    } else {
        lemma_digits_no_nul(v as nat);
    }
}

/// What is written to the cursor file is read back unchanged, provided the file name and
/// its first line hold no NUL (the separator of the values).
pub proof fn lemma_cursor_roundtrip(c: CursorModel)
    requires
        !c.cfile.contains('\0'),
        !c.first_line.contains('\0'),
    ensures
        spec_cursor_file_read(Some(encode_utf8(spec_cursor_text(c)))) == Ok::<CursorModel, Seq<char>>(c),
{
    let t0 = spec_decimal(c.cts as int);
    let t1 = spec_decimal(c.foffset as int);
    let nul = seq!['\0'];
    lemma_decimal_no_nul(c.cts as int);
    lemma_decimal_no_nul(c.foffset as int);
    crate::text::lemma_parse_decimal_roundtrip(c.cts);
    crate::text::lemma_parse_decimal_roundtrip(c.foffset);
    let e3 = encode_utf8(c.first_line + nul);
    let e2 = encode_utf8(c.cfile + nul);
    let e1 = encode_utf8(t1 + nul);
    let e0 = encode_utf8(t0 + nul);
    assert(spec_cursor_text(c) =~= (t0 + nul) + ((t1 + nul) + ((c.cfile + nul) + (c.first_line + nul))));
    lemma_encode_concat(t0 + nul, (t1 + nul) + ((c.cfile + nul) + (c.first_line + nul)));
    lemma_encode_concat(t1 + nul, (c.cfile + nul) + (c.first_line + nul));
    lemma_encode_concat(c.cfile + nul, c.first_line + nul);
    let empty = Seq::<u8>::empty();
    lemma_value_piece(c.first_line, empty);
    assert(e3 + empty =~= e3);
    assert(split_pieces(empty, 0) =~= Seq::<Seq<u8>>::empty());
    lemma_value_piece(c.cfile, e3);
    lemma_value_piece(t1, e2 + e3);
    lemma_value_piece(t0, e1 + (e2 + e3));
    let ps = split_pieces(encode_utf8(spec_cursor_text(c)), 0);
    assert(ps.len() == 4);
    let a0 = CursorModel { cts: c.cts, ..empty_cursor() };
    let a1 = CursorModel { foffset: c.foffset, ..a0 };
    let a2 = CursorModel { cfile: c.cfile, ..a1 };
    let a3 = CursorModel { first_line: c.first_line, ..a2 };
    assert(a3 == c);
    assert(ps.drop_first().drop_first().drop_first().drop_first() =~= Seq::<Seq<u8>>::empty());
    assert(read_cursor_values(ps.drop_first().drop_first().drop_first().drop_first(), 4, a3) == Ok::<CursorModel, Seq<char>>(c));
    assert(read_cursor_values(ps.drop_first().drop_first().drop_first(), 3, a2) == Ok::<CursorModel, Seq<char>>(c));
    assert(read_cursor_values(ps.drop_first().drop_first(), 2, a1) == Ok::<CursorModel, Seq<char>>(c));
    assert(read_cursor_values(ps.drop_first(), 1, a0) == Ok::<CursorModel, Seq<char>>(c));
}


/// `s` cut at every `sep`, as `str::split(sep)` cuts it: empty fields are kept, and the
/// empty string gives one empty field.
pub open spec fn split_on(s: Seq<char>, sep: char) -> Seq<Seq<char>>
    decreases s.len(),
{
    if s.len() == 0 {
        seq![Seq::empty()]
    } else {
        let r = split_on(s.drop_last(), sep);
        if s.last() == sep {
            r.push(Seq::empty())
        } else {
            r.update(r.len() - 1, r.last().push(s.last()))
        }
    }
}

/// Splitting always gives at least one field.
pub(crate) proof fn lemma_split_on_nonempty(s: Seq<char>, sep: char)
    ensures
        split_on(s, sep).len() >= 1,
    decreases s.len(),
{
    if s.len() > 0 {
        lemma_split_on_nonempty(s.drop_last(), sep);
    }
}

/// The fields of `s` separated by `sep`.
pub fn split_fields(s: &Vec<char>, sep: char) -> (r: Vec<Vec<char>>)
    ensures
        r@.len() == split_on(s@, sep).len(),
        forall|i: int| 0 <= i < r@.len() ==> #[trigger] r@[i]@ == split_on(s@, sep)[i],
{
    let mut fields: Vec<Vec<char>> = Vec::new();
    let mut cur: Vec<char> = Vec::new();
    let mut i: usize = 0;
    assert(s@.take(0) =~= Seq::<char>::empty());
    while i < s.len()
        invariant
            i <= s@.len(),
            fields@.len() + 1 == split_on(s@.take(i as int), sep).len(),
            forall|k: int| 0 <= k < fields@.len() ==> #[trigger] fields@[k]@ == split_on(s@.take(i as int), sep)[k],
            cur@ == split_on(s@.take(i as int), sep).last(),
        decreases s@.len() - i,
    {
        proof { lemma_split_on_nonempty(s@.take(i as int), sep); }
        let c = s[i];
        assert(s@.take(i + 1).drop_last() =~= s@.take(i as int));
        assert(s@.take(i + 1).last() == c);
        if c == sep {
            let done = cur;
            fields.push(done);
            cur = Vec::new();
        } else {
            cur.push(c);
        }
        i = i + 1;
    }
    assert(s@.take(s@.len() as int) =~= s@);
    fields.push(cur);
    proof { lemma_split_on_nonempty(s@, sep); }
    fields
}

/// Field `n` of `s` split at single spaces, where there is one (`split(' ').nth(n)`).
pub open spec fn space_field(s: Seq<char>, n: int) -> Option<Seq<char>> {
    let f = split_on(s, ' ');
    if 0 <= n < f.len() {
        Some(f[n])
    } else {
        None
    }
}

/// The first two fields of `s` split at single spaces, joined by a space
/// (`split(' ').take(2)` joined with `" "`): the date and time of a log line.
pub open spec fn date_time_part(s: Seq<char>) -> Seq<char> {
    let f = split_on(s, ' ');
    if f.len() >= 2 {
        f[0] + seq![' '] + f[1]
    } else {
        f[0]
    }
}

/// The date and time of a log line: its first two space-separated fields.
pub fn date_time_of(line: &str) -> (r: String)
    ensures
        r@ == date_time_part(line@),
{
    let v = chars_of(line);
    let f = split_fields(&v, ' ');
    proof { lemma_split_on_nonempty(v@, ' '); }
    let mut out: Vec<char> = f[0].clone();
    if f.len() >= 2 {
        out.push(' ');
        let mut second = f[1].clone();
        out.append(&mut second);
    }
    assert(out@ =~= date_time_part(line@));
    string_of(out.as_slice())
}

/// `[` or `]`.
pub open spec fn is_bracket(c: char) -> bool {
    c == '[' || c == ']'
}

/// `s` without its leading brackets.
pub open spec fn trim_start_brackets(s: Seq<char>) -> Seq<char>
    decreases s.len(),
{
    if s.len() > 0 && is_bracket(s[0]) {
        trim_start_brackets(s.drop_first())
    } else {
        s
    }
}

/// `s` without its trailing brackets.
pub open spec fn trim_end_brackets(s: Seq<char>) -> Seq<char>
    decreases s.len(),
{
    if s.len() > 0 && is_bracket(s.last()) {
        trim_end_brackets(s.drop_last())
    } else {
        s
    }
}

/// `s` without leading and trailing brackets (`trim_matches(|c| c == '[' || c == ']')`).
pub open spec fn trim_brackets(s: Seq<char>) -> Seq<char> {
    trim_end_brackets(trim_start_brackets(s))
}

/// `s` without leading and trailing brackets.
pub fn trim_brackets_of(s: &Vec<char>) -> (r: Vec<char>)
    ensures
        r@ == trim_brackets(s@),
{
    let mut i: usize = 0;
    assert(s@.skip(0) =~= s@);
    while i < s.len() && (s[i] == '[' || s[i] == ']')
        invariant
            i <= s@.len(),
            trim_start_brackets(s@) == trim_start_brackets(s@.skip(i as int)),
        decreases s@.len() - i,
    {
        assert(s@.skip(i as int).drop_first() =~= s@.skip(i + 1));
        i = i + 1;
    }
    let ghost t = s@.skip(i as int);
    assert(trim_start_brackets(t) == t);
    let mut j: usize = s.len();
    while j > i && (s[j - 1] == '[' || s[j - 1] == ']')
        invariant
            i <= j <= s@.len(),
            t == s@.skip(i as int),
            trim_end_brackets(t) == trim_end_brackets(s@.subrange(i as int, j as int)),
        decreases j,
    {
        assert(s@.subrange(i as int, j as int).drop_last() =~= s@.subrange(i as int, j - 1));
        j = j - 1;
    }
    assert(s@.subrange(i as int, s@.len() as int) =~= t);
    let mut out: Vec<char> = Vec::new();
    let mut k: usize = i;
    while k < j
        invariant
            i <= k <= j <= s@.len(),
            out@ == s@.subrange(i as int, k as int),
        decreases j - k,
    {
        out.push(s[k]);
        assert(s@.subrange(i as int, k + 1) =~= s@.subrange(i as int, k as int).push(s@[k as int]));
        k = k + 1;
    }
    out
}

/// The pid of a log line: its third space-separated field without brackets.
pub open spec fn line_pid(s: Seq<char>) -> Option<Seq<char>> {
    match space_field(s, 2) {
        Some(f) => Some(trim_brackets(f)),
        None => None,
    }
}

/// The pid of a log line, such as `12759` in `2023/02/27 02:28:40 [12759] ...`.
pub fn pid_of(line: &str) -> (r: Option<String>)
    ensures
        match r {
            Some(p) => line_pid(line@) == Some(p@),
            None => line_pid(line@) is None,
        },
{
    let v = chars_of(line);
    let f = split_fields(&v, ' ');
    if f.len() > 2 {
        let t = trim_brackets_of(&f[2]);
        Some(string_of(t.as_slice()))
    } else {
        None
    }
}


/// What the date in a rotated log file's name (`<stem>_<YYYY-MM-DD>.<ext>`) says: the
/// midnight of that day, or `None` where the name has no `_` or no such date.
pub open spec fn spec_file_name_date(name: Seq<char>) -> Result<Option<i64>, Seq<char>> {
    let parts = split_on(name, '_');
    if parts.len() < 2 {
        Ok(None)
    } else {
        let date = split_on(parts.last(), '.')[0];
        match file_date_midnight(date) {
            None => Ok(None),
            Some(None) => Err("Failed to create date time"@),
            Some(Some(t)) => Ok(Some(t)),
        }
    }
}

/// The midnight (UTC) of the date in a rotated log file's name, if it has one.
pub fn file_name_date(file_name: &str) -> (r: Result<Option<i64>, String>)
    ensures
        r is Ok,
        match (r, spec_file_name_date(file_name@)) {
            (Ok(a), Ok(b)) => a == b,
            (Err(a), Err(b)) => a@ == b,
            _ => false,
        },
{
    let v = chars_of(file_name);
    let parts = split_fields(&v, '_');
    if parts.len() < 2 {
        return Ok(None);
    }
    let last = &parts[parts.len() - 1];
    let pieces = split_fields(last, '.');
    proof { lemma_split_on_nonempty(last@, '.'); }
    let date = string_of(pieces[0].as_slice());
    match parse_file_date(date.as_str()) {
        None => Ok(None),
        Some(None) => Err("Failed to create date time".to_owned()),
        Some(Some(t)) => Ok(Some(t)),
    }
}

/// The midnight (UTC) of the day of a timestamp, through chrono's calendar.
pub open spec fn spec_ts_day_trim(ts: i64) -> Result<i64, Seq<char>> {
    match utc_ymd(ts) {
        None => Err("Couldn't parse cursor date"@),
        Some((y, m, d)) => match utc_midnight_timestamp(y, m, d) {
            None => Err("Couldn't create datetime"@),
            Some(t) => Ok(t),
        },
    }
}

/// The midnight (UTC) of the day of a timestamp.
pub fn ts_day_trim(ts: i64) -> (r: Result<i64, String>)
    ensures
        result_view(r) == spec_ts_day_trim(ts),
        utc_ymd(ts) is Some ==> r == Ok::<i64, String>((ts - (ts as int) % 86400) as i64),
{
    match utc_date_of(ts) {
        None => Err("Couldn't parse cursor date".to_owned()),
        Some((y, m, d)) => match utc_midnight(y, m, d) {
            None => Err("Couldn't create datetime".to_owned()),
            Some(t) => Ok(t),
        },
    }
}

/// The glob patterns of a log and its rotated files: dated and gzipped, dated, and the
/// live log itself, in that order.
pub open spec fn spec_log_file_patterns(stem: Seq<char>) -> Seq<Seq<char>> {
    seq![
        stem + "_[0-9][0-9][0-9][0-9]-[0-9][0-9]-[0-9][0-9].log.gz"@,
        stem + "_[0-9][0-9][0-9][0-9]-[0-9][0-9]-[0-9][0-9].log"@,
        stem + ".log"@,
    ]
}

/// The glob patterns of a log and its rotated files.
pub fn log_file_patterns(stem: &str) -> (r: Vec<String>)
    ensures
        r@.len() == 3,
        forall|i: int| 0 <= i < 3 ==> #[trigger] r@[i]@ == spec_log_file_patterns(stem@)[i],
{
    let mut a = stem.to_owned();
    a.append("_[0-9][0-9][0-9][0-9]-[0-9][0-9]-[0-9][0-9].log.gz");
    let mut b = stem.to_owned();
    b.append("_[0-9][0-9][0-9][0-9]-[0-9][0-9]-[0-9][0-9].log");
    let mut c = stem.to_owned();
    c.append(".log");
    let mut v: Vec<String> = Vec::new();
    v.push(a);
    v.push(b);
    v.push(c);
    v
}

/// Whether a log file found by the patterns is read: not when the date in its name is
/// before the day of the cursor.
pub open spec fn spec_keep_log_file(name: Seq<char>, cts_day: i64) -> Result<bool, Seq<char>> {
    match spec_file_name_date(name) {
        Err(e) => Err(e),
        Ok(Some(t)) => Ok(!(t < cts_day)),
        Ok(None) => Ok(true),
    }
}

/// Whether a log file found by the patterns is read.
pub fn keep_log_file(name: &str, cts_day: i64) -> (r: Result<bool, String>)
    ensures
        r is Ok,
        match (r, spec_keep_log_file(name@, cts_day)) {
            (Ok(a), Ok(b)) => a == b,
            (Err(a), Err(b)) => a@ == b,
            _ => false,
        },
{
    match file_name_date(name)? {
        Some(t) => Ok(!(t < cts_day)),
        None => Ok(true),
    }
}

/// The name of the log without its `.log` extension, or why it has none.
pub open spec fn spec_log_file_stem(path: Seq<char>) -> Result<Seq<char>, Seq<char>> {
    match spec_trim_end_or_error(path, ".log"@) {
        Ok(stem) => Ok(stem),
        Err(_) => Err(
            "Unexpected extension to target log file name "@ + str_debug(path)
                + " (it is required to end with '.log')"@,
        ),
    }
}

/// The name of the log without its `.log` extension.
pub fn log_file_stem(path: &str) -> (r: Result<String, String>)
    ensures
        match (r, spec_log_file_stem(path@)) {
            (Ok(a), Ok(b)) => a@ == b,
            (Err(a), Err(b)) => a@ == b,
            _ => false,
        },
{
    match trim_end_or_error(path, ".log") {
        Ok(stem) => Ok(stem),
        Err(_) => {
            let mut msg = "Unexpected extension to target log file name ".to_owned();
            let dbg = debug_str(path);
            msg.append(dbg.as_str());
            msg.append(" (it is required to end with '.log')");
            Err(msg)
        },
    }
}


/// The longest time a chunk may span, in seconds (three days).
pub const CHUNK_MAX_PERIOD: i64 = 3 * 24 * 60 * 60;

/// The first line of a chunk.
pub const FIRST_LINE_PATTERN: &'static str = r"^[0-9]{4,4}/[01][0-9]/[0-3][0-9] [012][0-9]:[0-5][0-9]:[0-5][0-9] \[[0-9]+\] receiving file list$";
/// A line that closes a chunk: the transfer totals or an `rsync error`.
pub const LAST_LINE_PATTERN: &'static str = r"^[0-9]{4,4}/[01][0-9]/[0-3][0-9] [012][0-9]:[0-5][0-9]:[0-5][0-9] \[[0-9]+\] (sent [0-9]+|rsync error:)";
/// The date, time and pid that every line of a chunk starts with.
pub const PREFIX_LINE_PATTERN: &'static str = r"^[0-9]{4,4}/[01][0-9]/[0-3][0-9] [012][0-9]:[0-5][0-9]:[0-5][0-9] \[[0-9]+\] ";

/// Where the first line of a chunk is, reading the lines from index `i` on (indices
/// counted from `base`): the first line that reads as an error stops the search.
pub open spec fn find_start_from(ls: Seq<Result<Seq<char>, Seq<char>>>, base: int, i: int) -> Option<
    Result<(int, Seq<char>), Seq<char>>,
>
    decreases ls.len() - i,
{
    if i < 0 || i >= ls.len() {
        None
    } else {
        match ls[i] {
            Err(e) => Some(Err(e)),
            Ok(l) => if regex_is_match(FIRST_LINE_PATTERN@, l) {
                Some(Ok((i - base, l)))
            } else {
                find_start_from(ls, base, i + 1)
            },
        }
    }
}

/// Where the chunk whose pid is `pid` ends, reading from index `i` on (indices counted
/// from `base`), `cand` being the last line of the chunk seen so far: at a closing line of
/// that pid, or, where a line has no prefix or another pid, at the last line seen so far.
/// `None` where the lines run out first.
pub open spec fn find_end_from(
    ls: Seq<Result<Seq<char>, Seq<char>>>,
    base: int,
    i: int,
    pid: Seq<char>,
    cand: (int, Seq<char>),
) -> Option<Result<(int, Seq<char>), Seq<char>>>
    decreases ls.len() - i,
{
    if i < 0 || i >= ls.len() {
        None
    } else {
        match ls[i] {
            Err(e) => Some(Err(e)),
            Ok(l) => if regex_is_match(PREFIX_LINE_PATTERN@, l) {
                match line_pid(l) {
                    None => Some(Err("Couldn't extract pid from candidate line"@)),
                    Some(p) => if p == pid {
                        if regex_is_match(LAST_LINE_PATTERN@, l) {
                            Some(Ok((i - base, l)))
                        } else {
                            find_end_from(ls, base, i + 1, pid, (i - base, l))
                        }
                    } else {
                        Some(Ok(cand))
                    },
                }
            } else {
                Some(Ok(cand))
            },
        }
    }
}

/// The outcome of a search, as a model.
pub open spec fn search_view(r: Option<Result<(usize, String), String>>) -> Option<Result<(int, Seq<char>), Seq<char>>> {
    match r {
        None => None,
        Some(Err(e)) => Some(Err(e@)),
        Some(Ok((i, l))) => Some(Ok((i as int, l@))),
    }
}

fn find_chunk_start(p: &crate::pattern::Pattern, lines: &Vec<Result<String, String>>, base: usize) -> (r: Option<
    Result<(usize, String), String>,
>)
    requires
        p.source() == FIRST_LINE_PATTERN@,
    ensures
        search_view(r) == find_start_from(lines_view(lines@), base as int, base as int),
{
    let ghost ls = lines_view(lines@);
    let mut i = base;
    while i < lines.len()
        invariant
            base <= i,
            ls == lines_view(lines@),
            p.source() == FIRST_LINE_PATTERN@,
            find_start_from(ls, base as int, i as int) == find_start_from(ls, base as int, base as int),
        decreases lines.len() - i,
    {
        match &lines[i] {
            Err(e) => { return Some(Err(e.clone())); },
            Ok(l) => {
                if is_match(p, l.as_str()) {
                    return Some(Ok((i - base, l.clone())));
                }
            },
        }
        i = i + 1;
    }
    None
}

fn find_chunk_end(
    prefix: &crate::pattern::Pattern,
    last: &crate::pattern::Pattern,
    lines: &Vec<Result<String, String>>,
    base: usize,
    pid: &String,
    cand_idx: usize,
    cand_line: &String,
) -> (r: Option<Result<(usize, String), String>>)
    requires
        prefix.source() == PREFIX_LINE_PATTERN@,
        last.source() == LAST_LINE_PATTERN@,
    ensures
        search_view(r) == find_end_from(lines_view(lines@), base as int, base as int, pid@, (cand_idx as int, cand_line@)),
{
    let ghost ls = lines_view(lines@);
    let mut i = base;
    let mut ci: usize = cand_idx;
    let mut cl: String = cand_line.clone();
    while i < lines.len()
        invariant
            base <= i,
            ls == lines_view(lines@),
            prefix.source() == PREFIX_LINE_PATTERN@,
            last.source() == LAST_LINE_PATTERN@,
            find_end_from(ls, base as int, i as int, pid@, (ci as int, cl@)) == find_end_from(
                ls,
                base as int,
                base as int,
                pid@,
                (cand_idx as int, cand_line@),
            ),
        decreases lines.len() - i,
    {
        match &lines[i] {
            Err(e) => { return Some(Err(e.clone())); },
            Ok(l) => {
                if is_match(prefix, l.as_str()) {
                    match pid_of(l.as_str()) {
                        None => { return Some(Err("Couldn't extract pid from candidate line".to_owned())); },
                        Some(p) => {
                            if p == *pid {
                                if is_match(last, l.as_str()) {
                                    return Some(Ok((i - base, l.clone())));
                                }
                                ci = i - base;
                                cl = l.clone();
                            } else {
                                return Some(Ok((ci, cl)));
                            }
                        },
                    }
                } else {
                    return Some(Ok((ci, cl)));
                }
            },
        }
        i = i + 1;
    }
    None
}


/// The first (or last) line of a file, as reading it went: the file did not open (with
/// the error text), it has no line, the line did not read (with the error text), or the line.
#[derive(Debug, Clone, PartialEq, Eq)]
pub enum LineRead {
    OpenError(String),
    NoLine,
    ReadError(String),
    Line(String),
}

/// The mathematical value of a `LineRead`.
pub enum LineReadModel {
    OpenError(Seq<char>),
    NoLine,
    ReadError(Seq<char>),
    Line(Seq<char>),
}

impl View for LineRead {
    type V = LineReadModel;

    open spec fn view(&self) -> LineReadModel {
        match self {
            LineRead::OpenError(m) => LineReadModel::OpenError(m@),
            LineRead::NoLine => LineReadModel::NoLine,
            LineRead::ReadError(e) => LineReadModel::ReadError(e@),
            LineRead::Line(l) => LineReadModel::Line(l@),
        }
    }
}

/// What is known while looking through the log files for the next chunk.
#[derive(Debug, Clone, PartialEq, Eq)]
pub struct NextState {
    pub cts: i64,
    pub foffset: i64,
    pub cfile: String,
    pub cfile_first_line: String,
    pub file_rotated: bool,
    pub first_match_line_nb: usize,
}

/// The mathematical value of a `NextState`.
pub struct NextModel {
    pub cts: i64,
    pub foffset: i64,
    pub cfile: Seq<char>,
    pub cfile_first_line: Seq<char>,
    pub file_rotated: bool,
    pub first_match_line_nb: usize,
}

impl View for NextState {
    type V = NextModel;

    open spec fn view(&self) -> NextModel {
        NextModel {
            cts: self.cts,
            foffset: self.foffset,
            cfile: self.cfile@,
            cfile_first_line: self.cfile_first_line@,
            file_rotated: self.file_rotated,
            first_match_line_nb: self.first_match_line_nb,
        }
    }
}

/// The state the search starts from: the cursor's values, whether the file the cursor
/// points to has been rotated (its first line changed), and the midnight of the cursor's day.
pub open spec fn spec_start_state(c: CursorModel, cfile_first: Option<LineReadModel>) -> Result<(NextModel, i64), Seq<char>> {
    let rotated: Result<bool, Seq<char>> = if c.cfile.len() > 0 {
        match cfile_first {
            Some(LineReadModel::OpenError(m)) => Err(m),
            Some(LineReadModel::NoLine) => Ok(c.first_line != Seq::<char>::empty()),
            Some(LineReadModel::ReadError(e)) => Err("Error while reading first line from "@ + c.cfile + "\n  "@ + e),
            Some(LineReadModel::Line(l)) => Ok(c.first_line != l),
            None => Ok(false),
        }
    } else {
        Ok(false)
    };
    match rotated {
        Err(e) => Err(e),
        Ok(r) => match spec_ts_day_trim(c.cts) {
            Err(e) => Err(e),
            Ok(t) => Ok(
                (
                    NextModel {
                        cts: c.cts,
                        foffset: c.foffset,
                        cfile: c.cfile,
                        cfile_first_line: c.first_line,
                        file_rotated: r,
                        first_match_line_nb: 0,
                    },
                    t,
                ),
            ),
        },
    }
}

/// The state the search starts from, given the cursor and, where the cursor names a
/// file, how reading that file's first line went.
pub fn start_state(c: &Cursor, cfile_first: Option<LineRead>) -> (r: Result<(NextState, i64), String>)
    requires
        c.cfile@.len() > 0 ==> cfile_first is Some,
    ensures
        match (r, spec_start_state(c@, match cfile_first { Some(x) => Some(x@), None => None })) {
            (Ok((a, t)), Ok((b, u))) => a@ == b && t == u,
            (Err(a), Err(b)) => a@ == b,
            _ => false,
        },
{
    let mut rotated = false;
    let none = String::new();
    proof {
        if c.cfile@.len() == 0 {
            assert(c.cfile@ =~= none@);
        }
    }
    if !(c.cfile == none) {
        match cfile_first {
            Some(LineRead::OpenError(m)) => { return Err(m); },
            Some(LineRead::NoLine) => {
                let empty = String::new();
                rotated = !(c.first_line == empty);
            },
            Some(LineRead::ReadError(e)) => {
                let mut msg = "Error while reading first line from ".to_owned();
                msg.append(c.cfile.as_str());
                msg.append("\n  ");
                msg.append(e.as_str());
                return Err(msg);
            },
            Some(LineRead::Line(l)) => {
                rotated = !(c.first_line == l);
            },
            None => {},
        }
    }
    let t = ts_day_trim(c.cts)?;
    Ok(
        (
            NextState {
                cts: c.cts,
                foffset: c.foffset,
                cfile: c.cfile.clone(),
                cfile_first_line: c.first_line.clone(),
                file_rotated: rotated,
                first_match_line_nb: 0,
            },
            t,
        ),
    )
}

/// What to do after looking at one log file: return an error, go on to the next file,
/// append the lines from `Append`'s index on to the content file (the chunk goes on in the
/// next file) and go on, or hand out the chunk: the content file, then `count` lines from
/// `from` on, then write the cursor (or return its error; `None` where computing the new
/// offset overflows). `Overflow`: computing the end of the chunk's time span overflows.
pub enum FileStepModel {
    Fail(Seq<char>),
    Skip(NextModel),
    Append(NextModel, int),
    Emit(int, int, Option<Result<Seq<char>, Seq<char>>>),
    Overflow,
}

/// The lines of a file as read: `Err` with the text of the error where it did not open.
pub open spec fn file_lines_view(lines: Result<Vec<Result<String, String>>, String>) -> Result<
    Seq<Result<Seq<char>, Seq<char>>>,
    Seq<char>,
> {
    match lines {
        Ok(v) => Ok(lines_view(v@)),
        Err(m) => Err(m@),
    }
}

/// The message a rotated file that is not the one the cursor pointed to is refused with.
pub open spec fn lost_reference() -> Seq<char> {
    "Lost our previous reference !"@
}

/// Where the cursor's file was rotated, the next file must start with the same line;
/// it then becomes the cursor's file.
pub open spec fn rotation_step(
    st: NextModel,
    name: Seq<char>,
    lines: Result<Seq<Result<Seq<char>, Seq<char>>>, Seq<char>>,
) -> Result<NextModel, Seq<char>> {
    if !st.file_rotated {
        Ok(st)
    } else {
        match lines {
            Err(m) => Err(m),
            Ok(ls) => if ls.len() == 0 {
                Err(lost_reference())
            } else {
                match ls[0] {
                    Err(e) => Err(e),
                    Ok(l) => if l == st.cfile_first_line {
                        Ok(NextModel { cfile: name, file_rotated: false, ..st })
                    } else {
                        Err(lost_reference())
                    },
                }
            },
        }
    }
}

/// The texts of the lines, or the first error among them.
pub open spec fn collect_lines(ls: Seq<Result<Seq<char>, Seq<char>>>) -> Result<Seq<Seq<char>>, Seq<char>>
    decreases ls.len(),
{
    if ls.len() == 0 {
        Ok(Seq::empty())
    } else {
        match collect_lines(ls.drop_last()) {
            Err(e) => Err(e),
            Ok(r) => match ls.last() {
                Err(e) => Err(e),
                Ok(l) => Ok(r.push(l)),
            },
        }
    }
}

/// The lines joined with newlines.
pub open spec fn join_lines(ls: Seq<Seq<char>>) -> Seq<char>
    decreases ls.len(),
{
    if ls.len() == 0 {
        Seq::empty()
    } else if ls.len() == 1 {
        ls[0]
    } else {
        join_lines(ls.drop_last()) + "\n"@ + ls.last()
    }
}

/// Where the chunk starts: it goes on from the content file, or it is searched for from
/// the cursor's offset (in the cursor's file; from the top in another), and must start
/// right there.
pub enum StartModel {
    Fail(Seq<char>),
    Skip(NextModel),
    Found(NextModel, Seq<char>),
}

/// Where the chunk starts, from the content file's first line (`None` where there is no
/// content file) or by searching the file.
pub open spec fn start_step(
    st: NextModel,
    name: Seq<char>,
    lines: Result<Seq<Result<Seq<char>, Seq<char>>>, Seq<char>>,
    content: Option<LineReadModel>,
) -> StartModel {
    match content {
        Some(LineReadModel::OpenError(m)) => StartModel::Fail(m),
        Some(LineReadModel::NoLine) => StartModel::Fail("Couldn't read first line from content file"@),
        Some(LineReadModel::ReadError(e)) => StartModel::Fail(e),
        Some(LineReadModel::Line(l)) => StartModel::Found(NextModel { first_match_line_nb: 1, ..st }, l),
        None => if st.first_match_line_nb != 0 {
            StartModel::Found(st, Seq::empty())
        } else {
            let offset: i64 = if name == st.cfile { st.foffset } else { 0 };
            let base = (offset as usize) as int;
            match regex_new_result(FIRST_LINE_PATTERN@) {
                Err(e) => StartModel::Fail(e),
                Ok(_) => match lines {
                    Err(m) => StartModel::Fail(m),
                    Ok(ls) => match find_start_from(ls, base, base) {
                        None => StartModel::Skip(st),
                        Some(Err(e)) => StartModel::Fail(e),
                        Some(Ok((j, line))) => if j != 0 {
                            match collect_lines(ls.subrange(base, base + j + 1)) {
                                Err(e) => StartModel::Fail(e),
                                Ok(prefix) => StartModel::Fail(
                                    "Unexpected "@ + crate::text::spec_digits(j as nat) + " lines before beg line:\n"@
                                        + join_lines(prefix),
                                ),
                            }
                        } else {
                            StartModel::Found(NextModel { first_match_line_nb: 0, foffset: offset, cfile: name, ..st }, line)
                        },
                    },
                },
            }
        },
    }
}

/// `Couldn't parse date from <dt>: <e>`.
pub open spec fn date_parse_error(dt: Seq<char>, e: Seq<char>) -> Seq<char> {
    "Couldn't parse date from "@ + dt + ": "@ + e
}

/// The cursor written once a chunk has been handed out: the time of its last line, the
/// offset just past it, the file, and the file's first line.
pub open spec fn emit_cursor(st: NextModel, name: Seq<char>, last_ts: i64, k: int, ls: Seq<Result<Seq<char>, Seq<char>>>) -> Option<
    Result<Seq<char>, Seq<char>>,
> {
    if ls.len() == 0 {
        Some(Err("Couldn't read first line from file"@))
    } else {
        match ls[0] {
            Err(e) => Some(Err(e)),
            Ok(l) => if fits_i64(st.foffset + k + 1) {
                Some(Ok(spec_cursor_text(CursorModel { cts: last_ts, foffset: (st.foffset + k + 1) as i64, cfile: name, first_line: l })))
            } else {
                None
            },
        }
    }
}


/// Where the chunk that starts with `first_line` ends in this file.
pub open spec fn end_step(
    st: NextModel,
    name: Seq<char>,
    first_line: Seq<char>,
    lines: Result<Seq<Result<Seq<char>, Seq<char>>>, Seq<char>>,
) -> FileStepModel {
    let st2 = if name != st.cfile { NextModel { foffset: 0, ..st } } else { st };
    match line_pid(first_line) {
        None => FileStepModel::Fail("Couldn't extract pid from first line"@),
        Some(pid) => {
            let dt = date_time_part(first_line);
            match log_datetime_timestamp(dt) {
                Err(e) => FileStepModel::Fail(date_parse_error(dt, e)),
                Ok(t) => if !fits_i64(t + CHUNK_MAX_PERIOD) {
                    FileStepModel::Overflow
                } else {
                    match utc_ymd((t + CHUNK_MAX_PERIOD) as i64) {
                        None => FileStepModel::Fail("Couldn't parse max period date"@),
                        Some(_) => match regex_new_result(LAST_LINE_PATTERN@) {
                            Err(e) => FileStepModel::Fail(e),
                            Ok(_) => match regex_new_result(PREFIX_LINE_PATTERN@) {
                                Err(e) => FileStepModel::Fail(e),
                                Ok(_) => match lines {
                                    Err(m) => FileStepModel::Fail(m),
                                    Ok(ls) => {
                                        let base = (st2.foffset as usize) as int;
                                        match find_end_from(ls, base, base, pid, (st2.first_match_line_nb as int, first_line)) {
                                            None => FileStepModel::Append(st2, base),
                                            Some(Err(e)) => FileStepModel::Fail(e),
                                            Some(Ok((k, last_line))) => match log_datetime_timestamp(date_time_part(last_line)) {
                                                Err(e) => FileStepModel::Fail(date_parse_error(dt, e)),
                                                Ok(lt) => FileStepModel::Emit(base, k + 1, emit_cursor(st2, name, lt, k, ls)),
                                            },
                                        }
                                    },
                                },
                            },
                        },
                    }
                },
            }
        },
    }
}

/// Looking at one log file named `name`, with its lines and (where there is a content
/// file) the content file's first line.
pub open spec fn spec_file_step(
    st: NextModel,
    name: Seq<char>,
    lines: Result<Seq<Result<Seq<char>, Seq<char>>>, Seq<char>>,
    content: Option<LineReadModel>,
) -> FileStepModel {
    match rotation_step(st, name, lines) {
        Err(e) => FileStepModel::Fail(e),
        Ok(st1) => match start_step(st1, name, lines, content) {
            StartModel::Fail(e) => FileStepModel::Fail(e),
            StartModel::Skip(s) => FileStepModel::Skip(s),
            StartModel::Found(s, fl) => end_step(s, name, fl, lines),
        },
    }
}


/// What to do after looking at one log file (see `FileStepModel`).
#[derive(Debug, Clone, PartialEq, Eq)]
pub enum FileStep {
    Fail(String),
    Skip(NextState),
    Append(NextState, usize),
    Emit(usize, usize, Option<Result<String, String>>),
    Overflow,
}

impl View for FileStep {
    type V = FileStepModel;

    open spec fn view(&self) -> FileStepModel {
        match self {
            FileStep::Fail(e) => FileStepModel::Fail(e@),
            FileStep::Skip(s) => FileStepModel::Skip(s@),
            FileStep::Append(s, n) => FileStepModel::Append(s@, *n as int),
            FileStep::Emit(a, b, c) => FileStepModel::Emit(
                *a as int,
                *b as int,
                match c {
                    None => None,
                    Some(Ok(t)) => Some(Ok(t@)),
                    Some(Err(e)) => Some(Err(e@)),
                },
            ),
            FileStep::Overflow => FileStepModel::Overflow,
        }
    }
}

fn copy_state(st: &NextState) -> (r: NextState)
    ensures
        r@ == st@,
{
    NextState {
        cts: st.cts,
        foffset: st.foffset,
        cfile: st.cfile.clone(),
        cfile_first_line: st.cfile_first_line.clone(),
        file_rotated: st.file_rotated,
        first_match_line_nb: st.first_match_line_nb,
    }
}

fn rotation_exec(st: &NextState, name: &String, lines: &Result<Vec<Result<String, String>>, String>) -> (r: Result<
    NextState,
    String,
>)
    ensures
        match (r, rotation_step(st@, name@, file_lines_view(*lines))) {
            (Ok(a), Ok(b)) => a@ == b,
            (Err(a), Err(b)) => a@ == b,
            _ => false,
        },
{
    if !st.file_rotated {
        return Ok(copy_state(st));
    }
    match lines {
        Err(m) => Err(m.clone()),
        Ok(ls) => {
            if ls.len() == 0 {
                return Err("Lost our previous reference !".to_owned());
            }
            assert(lines_view(ls@)[0] == (match ls@[0] { Ok(s) => Ok(s@), Err(e) => Err(e@) }));
            match &ls[0] {
                Err(e) => Err(e.clone()),
                Ok(l) => {
                    if *l == st.cfile_first_line {
                        let mut n = copy_state(st);
                        n.cfile = name.clone();
                        n.file_rotated = false;
                        Ok(n)
                    } else {
                        Err("Lost our previous reference !".to_owned())
                    }
                },
            }
        },
    }
}

/// The start of the chunk, as computed.
enum StartOut {
    Fail(String),
    Skip(NextState),
    Found(NextState, String),
}

spec fn start_out_view(r: StartOut) -> StartModel {
    match r {
        StartOut::Fail(e) => StartModel::Fail(e@),
        StartOut::Skip(s) => StartModel::Skip(s@),
        StartOut::Found(s, l) => StartModel::Found(s@, l@),
    }
}

fn prefix_lines_message(ls: &Vec<Result<String, String>>, base: usize, j: usize) -> (r: Result<String, String>)
    requires
        base + j + 1 <= ls@.len(),
    ensures
        match (r, collect_lines(lines_view(ls@).subrange(base as int, base + j + 1))) {
            (Ok(a), Ok(prefix)) => a@ == "Unexpected "@ + crate::text::spec_digits(j as nat) + " lines before beg line:\n"@
                + join_lines(prefix),
            (Err(a), Err(b)) => a@ == b,
            _ => false,
        },
{
    let ghost lv = lines_view(ls@);
    let total = ls.len();
    let end = base + j + 1;
    let mut joined: Vec<char> = Vec::new();
    let mut i: usize = base;
    let ghost mut texts: Seq<Seq<char>> = Seq::empty();
    assert(lv.subrange(base as int, base as int) =~= Seq::<Result<Seq<char>, Seq<char>>>::empty());
    while i < end
        invariant
            end == base + j + 1,
            base <= i <= end <= ls@.len(),
            lv == lines_view(ls@),
            collect_lines(lv.subrange(base as int, i as int)) == Ok::<Seq<Seq<char>>, Seq<char>>(texts),
            joined@ == join_lines(texts),
            texts.len() == i - base,
        decreases end - i,
    {
        assert(lv.subrange(base as int, i + 1).drop_last() =~= lv.subrange(base as int, i as int));
        assert(lv.subrange(base as int, i + 1).last() == lv[i as int]);
        match &ls[i] {
            Err(e) => {
                proof {
                    let full = lv.subrange(base as int, end as int);
                    assert(full.take(i + 1 - base) =~= lv.subrange(base as int, i + 1));
                    lemma_collect_prefix_err(full, i + 1 - base);
                }
                return Err(e.clone());
            },
            Ok(l) => {
                if i > base {
                    joined.push('\n');
                }
                let mut lc = chars_of(l.as_str());
                joined.append(&mut lc);
                proof {
                    let nt = texts.push(l@);
                    assert(nt.drop_last() =~= texts);
                    if texts.len() == 0 {
                        assert(joined@ =~= join_lines(nt));
                    } else {
                        assert(joined@ =~= join_lines(texts) + "\n"@ + l@) by {
                            reveal_strlit("\n");
                        }
                    }
                    texts = nt;
                }
            },
        }
        i = i + 1;
    }
    assert(lv.subrange(base as int, i as int) =~= lv.subrange(base as int, base + j + 1));
    let digits = crate::text::unsigned_decimal_chars(j as u64);
    let mut msg = "Unexpected ".to_owned();
    let ds = string_of(digits.as_slice());
    msg.append(ds.as_str());
    msg.append(" lines before beg line:\n");
    let js = string_of(joined.as_slice());
    msg.append(js.as_str());
    Ok(msg)
}

fn start_exec(
    st: NextState,
    name: &String,
    lines: &Result<Vec<Result<String, String>>, String>,
    content: &Option<LineRead>,
) -> (r: StartOut)
    ensures
        start_out_view(r) == start_step(st@, name@, file_lines_view(*lines), match content { Some(c) => Some(c@), None => None }),
{
    match content {
        Some(LineRead::OpenError(m)) => { return StartOut::Fail(m.clone()); },
        Some(LineRead::NoLine) => { return StartOut::Fail("Couldn't read first line from content file".to_owned()); },
        Some(LineRead::ReadError(e)) => { return StartOut::Fail(e.clone()); },
        Some(LineRead::Line(l)) => {
            let mut n = st;
            n.first_match_line_nb = 1;
            return StartOut::Found(n, l.clone());
        },
        None => {},
    }
    if st.first_match_line_nb != 0 {
        return StartOut::Found(st, String::new());
    }
    let offset: i64 = if *name == st.cfile { st.foffset } else { 0 };
    let base: usize = offset as usize;
    let p = match compile(FIRST_LINE_PATTERN) {
        Err(e) => { return StartOut::Fail(e); },
        Ok(p) => p,
    };
    let ls = match lines {
        Err(m) => { return StartOut::Fail(m.clone()); },
        Ok(ls) => ls,
    };
    match find_chunk_start(&p, ls, base) {
        None => StartOut::Skip(st),
        Some(Err(e)) => StartOut::Fail(e),
        Some(Ok((j, line))) => {
            if j != 0 {
                proof {
                    lemma_find_start_in_range(lines_view(ls@), base as int, base as int);
                }
                match prefix_lines_message(ls, base, j) {
                    Err(e) => StartOut::Fail(e),
                    Ok(msg) => StartOut::Fail(msg),
                }
            } else {
                let mut n = st;
                n.first_match_line_nb = 0;
                n.foffset = offset;
                n.cfile = name.clone();
                StartOut::Found(n, line)
            }
        },
    }
}

/// Once a prefix of the lines holds an error, collecting all of them gives that error.
proof fn lemma_collect_prefix_err(ls: Seq<Result<Seq<char>, Seq<char>>>, n: int)
    requires
        0 <= n <= ls.len(),
        collect_lines(ls.take(n)) is Err,
    ensures
        collect_lines(ls) == collect_lines(ls.take(n)),
    decreases ls.len() - n,
{
    if n < ls.len() {
        assert(ls.take(n + 1).drop_last() =~= ls.take(n));
        lemma_collect_prefix_err(ls, n + 1);
    } else {
        assert(ls.take(n) =~= ls);
    }
}

proof fn lemma_find_start_in_range(ls: Seq<Result<Seq<char>, Seq<char>>>, base: int, i: int)
    requires
        0 <= base <= i,
    ensures
        find_start_from(ls, base, i) matches Some(Ok((j, _))) ==> 0 <= j && base + j < ls.len() && i <= base + j,
    decreases ls.len() - i,
{
    if i < ls.len() {
        lemma_find_start_in_range(ls, base, i + 1);
    }
}

proof fn lemma_find_end_in_range(ls: Seq<Result<Seq<char>, Seq<char>>>, base: int, i: int, pid: Seq<char>, cand: (int, Seq<char>))
    requires
        0 <= base <= i,
        0 <= cand.0 <= i - base || cand.0 <= 1,
        0 <= cand.0,
    ensures
        find_end_from(ls, base, i, pid, cand) matches Some(Ok((k, _))) ==> 0 <= k && (k < ls.len() - base || k <= 1),
    decreases ls.len() - i,
{
    if i < ls.len() {
        if let Ok(l) = ls[i] {
            lemma_find_end_in_range(ls, base, i + 1, pid, (i - base, l));
        }
    }
}


fn date_parse_error_string(dt: &String, e: &String) -> (r: String)
    ensures
        r@ == date_parse_error(dt@, e@),
{
    let mut msg = "Couldn't parse date from ".to_owned();
    msg.append(dt.as_str());
    msg.append(": ");
    msg.append(e.as_str());
    msg
}

fn emit_cursor_exec(st: &NextState, name: &String, last_ts: i64, k: usize, ls: &Vec<Result<String, String>>) -> (r: Option<
    Result<String, String>,
>)
    requires
        k < i64::MAX,
    ensures
        match (r, emit_cursor(st@, name@, last_ts, k as int, lines_view(ls@))) {
            (None, None) => true,
            (Some(Ok(a)), Some(Ok(b))) => a@ == b,
            (Some(Err(a)), Some(Err(b))) => a@ == b,
            _ => false,
        },
{
    if ls.len() == 0 {
        return Some(Err("Couldn't read first line from file".to_owned()));
    }
    assert(lines_view(ls@)[0] == (match ls@[0] { Ok(s) => Ok(s@), Err(e) => Err(e@) }));
    match &ls[0] {
        Err(e) => Some(Err(e.clone())),
        Ok(l) => {
            let total: i128 = st.foffset as i128 + k as i128 + 1;
            if total < i64::MIN as i128 || total > i64::MAX as i128 {
                None
            } else {
                Some(Ok(cursor_file_content(last_ts, total as i64, name.as_str(), l.as_str())))
            }
        },
    }
}

fn end_exec(st: NextState, name: &String, first_line: String, lines: &Result<Vec<Result<String, String>>, String>) -> (r: FileStep)
    requires
        st.first_match_line_nb <= 1,
        lines matches Ok(v) ==> v@.len() < i64::MAX,
    ensures
        r@ == end_step(st@, name@, first_line@, file_lines_view(*lines)),
        r matches FileStep::Append(s, _) ==> s.first_match_line_nb <= 1,
{
    let mut st2 = st;
    if !(*name == st2.cfile) {
        st2.foffset = 0;
    }
    let pid = match pid_of(first_line.as_str()) {
        None => { return FileStep::Fail("Couldn't extract pid from first line".to_owned()); },
        Some(p) => p,
    };
    let dt = date_time_of(first_line.as_str());
    let t = match parse_log_datetime(dt.as_str()) {
        Err(e) => { return FileStep::Fail(date_parse_error_string(&dt, &e)); },
        Ok(t) => t,
    };
    let max_period = match t.checked_add(CHUNK_MAX_PERIOD) {
        None => { return FileStep::Overflow; },
        Some(x) => x,
    };
    if utc_date_of(max_period).is_none() {
        return FileStep::Fail("Couldn't parse max period date".to_owned());
    }
    let last = match compile(LAST_LINE_PATTERN) {
        Err(e) => { return FileStep::Fail(e); },
        Ok(p) => p,
    };
    let prefix = match compile(PREFIX_LINE_PATTERN) {
        Err(e) => { return FileStep::Fail(e); },
        Ok(p) => p,
    };
    let ls = match lines {
        Err(m) => { return FileStep::Fail(m.clone()); },
        Ok(ls) => ls,
    };
    let base: usize = st2.foffset as usize;
    let total_len = ls.len();
    let found = find_chunk_end(&prefix, &last, ls, base, &pid, st2.first_match_line_nb, &first_line);
    proof {
        lemma_find_end_in_range(
            lines_view(ls@),
            base as int,
            base as int,
            pid@,
            (st2.first_match_line_nb as int, first_line@),
        );
    }
    match found {
        None => FileStep::Append(st2, base),
        Some(Err(e)) => FileStep::Fail(e),
        Some(Ok((k, last_line))) => {
            let ldt = date_time_of(last_line.as_str());
            match parse_log_datetime(ldt.as_str()) {
                Err(e) => FileStep::Fail(date_parse_error_string(&dt, &e)),
                Ok(lt) => {
                    assert(k < total_len || k <= 1);
                    let cursor = emit_cursor_exec(&st2, name, lt, k, ls);
                    FileStep::Emit(base, k + 1, cursor)
                },
            }
        },
    }
}

/// The content file's first line, as a model (`None` where there is no content file).
pub open spec fn content_view(content: Option<LineRead>) -> Option<LineReadModel> {
    match content {
        Some(c) => Some(c@),
        None => None,
    }
}

/// What to do after looking at the log file `name`, given its lines (or the error opening
/// it) and the content file's first line (`None` where there is no content file).
pub fn file_step(
    st: &NextState,
    name: &str,
    lines: &Result<Vec<Result<String, String>>, String>,
    content: &Option<LineRead>,
) -> (r: FileStep)
    requires
        st.first_match_line_nb <= 1,
        lines matches Ok(v) ==> v@.len() < i64::MAX,
    ensures
        r@ == spec_file_step(st@, name@, file_lines_view(*lines), content_view(*content)),
        r matches FileStep::Skip(s) ==> s.first_match_line_nb <= 1,
        r matches FileStep::Append(s, _) ==> s.first_match_line_nb <= 1,
{
    let name = name.to_owned();
    let st1 = match rotation_exec(st, &name, lines) {
        Err(e) => { return FileStep::Fail(e); },
        Ok(s) => s,
    };
    match start_exec(st1, &name, lines, content) {
        StartOut::Fail(e) => FileStep::Fail(e),
        StartOut::Skip(s) => FileStep::Skip(s),
        StartOut::Found(s, fl) => end_exec(s, &name, fl, lines),
    }
}

/// The state after the rest of a file was appended to the content file, which held
/// `old_count` lines before and `new_count` after: the offset moves on by the lines added.
/// `None` where the new offset leaves the `i64` range.
pub open spec fn spec_after_append(st: NextModel, old_count: int, new_count: int) -> Option<NextModel> {
    if fits_i64(st.foffset + (new_count - old_count)) {
        Some(NextModel { foffset: (st.foffset + (new_count - old_count)) as i64, ..st })
    } else {
        None
    }
}

/// The state after the rest of a file was appended to the content file.
pub fn after_append(st: NextState, old_count: usize, new_count: usize) -> (r: Option<NextState>)
    requires
        old_count <= i64::MAX,
        new_count <= i64::MAX,
    ensures
        match (r, spec_after_append(st@, old_count as int, new_count as int)) {
            (Some(a), Some(b)) => a@ == b && a.first_match_line_nb == st.first_match_line_nb,
            (None, None) => true,
            _ => false,
        },
{
    let diff: i128 = new_count as i128 - old_count as i128;
    let total: i128 = st.foffset as i128 + diff;
    if total < i64::MIN as i128 || total > i64::MAX as i128 {
        None
    } else {
        let mut n = st;
        n.foffset = total as i64;
        Some(n)
    }
}

/// The cursor written when no complete chunk was found: the time of the content file's
/// last line (the cursor's time where there is no content file), the offset reached, the
/// live log and its first line.
pub open spec fn spec_finish_state(
    st: NextModel,
    path: Seq<char>,
    first: LineReadModel,
    content_last: Option<LineReadModel>,
) -> Result<Seq<char>, Seq<char>> {
    let first_line: Result<Seq<char>, Seq<char>> = match first {
        LineReadModel::OpenError(m) => Err(m),
        LineReadModel::NoLine => Ok(Seq::empty()),
        LineReadModel::ReadError(e) => Err(e),
        LineReadModel::Line(l) => Ok(l),
    };
    match first_line {
        Err(e) => Err(e),
        Ok(fl) => {
            let new_cts: Result<i64, Seq<char>> = match content_last {
                None => Ok(st.cts),
                Some(LineReadModel::OpenError(m)) => Err(m),
                Some(LineReadModel::NoLine) => Err("Couldn't read last line from content file"@),
                Some(LineReadModel::ReadError(e)) => Err(e),
                Some(LineReadModel::Line(l)) => match log_datetime_timestamp(date_time_part(l)) {
                    Err(e) => Err(date_parse_error(date_time_part(l), e)),
                    Ok(t) => Ok(t),
                },
            };
            match new_cts {
                Err(e) => Err(e),
                Ok(t) => Ok(spec_cursor_text(CursorModel { cts: t, foffset: st.foffset, cfile: path, first_line: fl })),
            }
        },
    }
}

/// The cursor text written when no complete chunk was found, given how reading the live
/// log's first line and the content file's last line (`None`: no content file) went.
pub fn finish_state(st: &NextState, path: &str, first: LineRead, content_last: Option<LineRead>) -> (r: Result<String, String>)
    ensures
        result_text_view(r) == spec_finish_state(st@, path@, first@, content_view(content_last)),
{
    let fl = match first {
        LineRead::OpenError(m) => { return Err(m); },
        LineRead::NoLine => String::new(),
        LineRead::ReadError(e) => { return Err(e); },
        LineRead::Line(l) => l,
    };
    let t = match content_last {
        None => st.cts,
        Some(LineRead::OpenError(m)) => { return Err(m); },
        Some(LineRead::NoLine) => { return Err("Couldn't read last line from content file".to_owned()); },
        Some(LineRead::ReadError(e)) => { return Err(e); },
        Some(LineRead::Line(l)) => {
            let dt = date_time_of(l.as_str());
            match parse_log_datetime(dt.as_str()) {
                Err(e) => { return Err(date_parse_error_string(&dt, &e)); },
                Ok(t) => t,
            }
        },
    };
    Ok(cursor_file_content(t, st.foffset, path, fl.as_str()))
}

/// A text result, as a model.
pub open spec fn result_text_view(r: Result<String, String>) -> Result<Seq<char>, Seq<char>> {
    match r {
        Ok(a) => Ok(a@),
        Err(e) => Err(e@),
    }
}


/// Once a chunk is handed out, the cursor written with it names the same file and points
/// just past the chunk's last line, so that the next search starts right after it; read
/// back, the cursor gives those values again (where the file name and its first line hold
/// no NUL).
pub proof fn lemma_emit_resumes_after_chunk(
    st: NextModel,
    name: Seq<char>,
    lines: Result<Seq<Result<Seq<char>, Seq<char>>>, Seq<char>>,
    content: Option<LineReadModel>,
    from: int,
    count: int,
    text: Seq<char>,
)
    requires
        0 <= st.foffset <= usize::MAX,
        spec_file_step(st, name, lines, content) == FileStepModel::Emit(from, count, Some(Ok::<Seq<char>, Seq<char>>(text))),
    ensures
        exists|c: CursorModel|
            #![trigger spec_cursor_text(c)]
            text == spec_cursor_text(c) && c.cfile == name && c.foffset == from + count && (!c.cfile.contains('\0')
                && !c.first_line.contains('\0') ==> spec_cursor_file_read(Some(encode_utf8(text))) == Ok::<
                CursorModel,
                Seq<char>,
            >(c)),
{
    let st1 = rotation_step(st, name, lines)->Ok_0;
    assert(st1.foffset == st.foffset);
    let (s, fl) = match start_step(st1, name, lines, content) {
        StartModel::Found(s, fl) => (s, fl),
        _ => { assert(false); (st1, Seq::empty()) },
    };
    assert(s.foffset == st.foffset || s.foffset == 0);
    let st2 = if name != s.cfile { NextModel { foffset: 0, ..s } } else { s };
    let pid = line_pid(fl)->Some_0;
    let ls = lines->Ok_0;
    let base = (st2.foffset as usize) as int;
    assert(base == st2.foffset);
    let (k, last_line) = (find_end_from(ls, base, base, pid, (st2.first_match_line_nb as int, fl))->Some_0)->Ok_0;
    let lt = log_datetime_timestamp(date_time_part(last_line))->Ok_0;
    assert(end_step(s, name, fl, lines) == FileStepModel::Emit(base, k + 1, emit_cursor(st2, name, lt, k, ls)));
    let l = ls[0]->Ok_0;
    let c = CursorModel { cts: lt, foffset: (st2.foffset + k + 1) as i64, cfile: name, first_line: l };
    assert(text == spec_cursor_text(c));
    if !c.cfile.contains('\0') && !c.first_line.contains('\0') {
        lemma_cursor_roundtrip(c);
    }
}


/// Where the search finds the first line of a chunk, that line is there and is a start line.
proof fn lemma_find_start_found(ls: Seq<Result<Seq<char>, Seq<char>>>, base: int, i: int)
    requires
        0 <= base <= i,
    ensures
        find_start_from(ls, base, i) matches Some(Ok((j, l))) ==> 0 <= base + j < ls.len()
            && ls[base + j] == Ok::<Seq<char>, Seq<char>>(l) && regex_is_match(FIRST_LINE_PATTERN@, l),
    decreases ls.len() - i,
{
    if 0 <= i < ls.len() {
        lemma_find_start_found(ls, base, i + 1);
    }
}

/// The lines from `base` to `base + n` (included) are all lines of the chunk of `pid`.
pub open spec fn chunk_lines(ls: Seq<Result<Seq<char>, Seq<char>>>, base: int, n: int, pid: Seq<char>) -> bool {
    forall|j: int| base <= j <= base + n ==> (#[trigger] ls[j] matches Ok(l) && line_pid(l) == Some(pid))
}

/// No line from `from` up to `to` (excluded) is a closing line.
pub open spec fn no_closing_line(ls: Seq<Result<Seq<char>, Seq<char>>>, from: int, to: int) -> bool {
    forall|j: int| from <= j < to ==> (#[trigger] ls[j] is Ok && !regex_is_match(LAST_LINE_PATTERN@, ls[j]->Ok_0))
}

/// How the `count` lines of the chunk of `pid` from `from` on end: with a closing line,
/// right before a line that is not of the chunk, or, where its start line has no prefix,
/// with that line alone.
pub open spec fn chunk_closed(ls: Seq<Result<Seq<char>, Seq<char>>>, from: int, count: int, pid: Seq<char>) -> bool {
    ||| ls[from + count - 1] is Ok && regex_is_match(LAST_LINE_PATTERN@, ls[from + count - 1]->Ok_0)
    ||| from + count < ls.len() && ls[from + count] is Ok && (!regex_is_match(PREFIX_LINE_PATTERN@, ls[from + count]->Ok_0)
        || line_pid(ls[from + count]->Ok_0) != Some(pid))
    ||| count == 1 && ls[from] is Ok && !regex_is_match(PREFIX_LINE_PATTERN@, ls[from]->Ok_0)
}

/// Where the search finds the end of the chunk of `pid`, every line up to it belongs to the
/// chunk, and it is a closing line, or the line after it is not of the chunk (or, at the
/// very first line looked at, that line has no prefix).
proof fn lemma_find_end_chunk(
    ls: Seq<Result<Seq<char>, Seq<char>>>,
    base: int,
    i: int,
    pid: Seq<char>,
    cand: (int, Seq<char>),
)
    requires
        0 <= base <= i,
        (i == base && cand.0 == 0) || (i > base && cand.0 == i - base - 1),
        base + cand.0 < ls.len(),
        ls[base + cand.0] == Ok::<Seq<char>, Seq<char>>(cand.1),
        chunk_lines(ls, base, cand.0, pid),
        no_closing_line(ls, base, i),
    ensures
        find_end_from(ls, base, i, pid, cand) matches Some(Ok((k, last))) ==> {
            &&& 0 <= k
            &&& base + k < ls.len()
            &&& ls[base + k] == Ok::<Seq<char>, Seq<char>>(last)
            &&& chunk_lines(ls, base, k, pid)
            &&& chunk_closed(ls, base, k + 1, pid)
            &&& no_closing_line(ls, base, base + k)
        },
    decreases ls.len() - i,
{
    if 0 <= i < ls.len() {
        if let Ok(l) = ls[i] {
            if regex_is_match(PREFIX_LINE_PATTERN@, l) {
                if line_pid(l) == Some(pid) {
                    assert(chunk_lines(ls, base, i - base, pid)) by {
                        assert forall|j: int| base <= j <= base + (i - base) implies (#[trigger] ls[j] matches Ok(
                            l2,
                        ) && line_pid(l2) == Some(pid)) by {
                            if j < i {
                                assert(j <= base + cand.0);
                            }
                        }
                    }
                    if !regex_is_match(LAST_LINE_PATTERN@, l) {
                        assert(no_closing_line(ls, base, i + 1)) by {
                            assert forall|j: int| base <= j < i + 1 implies (#[trigger] ls[j] is Ok
                                && !regex_is_match(LAST_LINE_PATTERN@, ls[j]->Ok_0)) by {
                                if j < i {
                                    assert(no_closing_line(ls, base, i));
                                }
                            }
                        }
                        lemma_find_end_chunk(ls, base, i + 1, pid, (i - base, l));
                    }
                }
            }
        }
    }
}

/// A chunk found in a log file (not carried over in the content file) and handed out is a
/// whole chunk: its first line is a start line, every line of it carries the pid of that
/// start line, no line of it but the last is a closing line, and it ends at a closing line
/// of that pid or right before the first line that is not of the chunk (or, where its start
/// line has no prefix, it is that line alone). The cursor written with it holds the time of
/// its last line, the offset just past it, the file and the file's first line.
pub proof fn lemma_emitted_chunk_is_whole(
    st: NextModel,
    name: Seq<char>,
    lines: Result<Seq<Result<Seq<char>, Seq<char>>>, Seq<char>>,
    from: int,
    count: int,
    cursor: Option<Result<Seq<char>, Seq<char>>>,
)
    requires
        0 <= st.foffset <= usize::MAX,
        st.first_match_line_nb == 0,
        spec_file_step(st, name, lines, None) == FileStepModel::Emit(from, count, cursor),
    ensures
        lines is Ok,
        0 <= from,
        1 <= count,
        from + count <= lines->Ok_0.len(),
        lines->Ok_0[from] is Ok,
        regex_is_match(FIRST_LINE_PATTERN@, lines->Ok_0[from]->Ok_0),
        line_pid(lines->Ok_0[from]->Ok_0) is Some,
        chunk_lines(lines->Ok_0, from, count - 1, line_pid(lines->Ok_0[from]->Ok_0)->Some_0),
        chunk_closed(lines->Ok_0, from, count, line_pid(lines->Ok_0[from]->Ok_0)->Some_0),
        no_closing_line(lines->Ok_0, from, from + count - 1),
        lines->Ok_0[0] is Err ==> cursor == Some(Err::<Seq<char>, Seq<char>>(lines->Ok_0[0]->Err_0)),
        lines->Ok_0[0] is Ok && fits_i64(from + count) ==> cursor == Some(
            Ok::<Seq<char>, Seq<char>>(
                spec_cursor_text(
                    CursorModel {
                        cts: log_datetime_timestamp(date_time_part(lines->Ok_0[from + count - 1]->Ok_0))->Ok_0,
                        foffset: (from + count) as i64,
                        cfile: name,
                        first_line: lines->Ok_0[0]->Ok_0,
                    },
                ),
            ),
        ),
{
    let st1 = rotation_step(st, name, lines)->Ok_0;
    assert(st1.foffset == st.foffset && st1.first_match_line_nb == 0);
    let ls = lines->Ok_0;
    let offset: i64 = if name == st1.cfile { st1.foffset } else { 0 };
    let base = (offset as usize) as int;
    assert(base == offset);
    lemma_find_start_found(ls, base, base);
    let (j, first) = find_start_from(ls, base, base)->Some_0->Ok_0;
    assert(j == 0);
    let s = NextModel { first_match_line_nb: 0, foffset: offset, cfile: name, ..st1 };
    assert(start_step(st1, name, lines, None) == StartModel::Found(s, first));
    let pid = line_pid(first)->Some_0;
    assert(chunk_lines(ls, base, 0, pid)) by {
        assert forall|j2: int| base <= j2 <= base + 0 implies (#[trigger] ls[j2] matches Ok(l) && line_pid(l) == Some(pid)) by {
            assert(j2 == base);
        }
    }
    lemma_find_end_chunk(ls, base, base, pid, (0, first));
    let (k, last) = (find_end_from(ls, base, base, pid, (0, first))->Some_0)->Ok_0;
    let lt = log_datetime_timestamp(date_time_part(last))->Ok_0;
    assert(end_step(s, name, first, lines) == FileStepModel::Emit(base, k + 1, emit_cursor(s, name, lt, k, ls)));
}


/// After a chunk is handed out, the next run resumes right after it: the cursor it wrote
/// reads back with the same file and the offset just past the chunk, and, while that file
/// still starts with the same line, the next run does not take it for rotated and starts
/// from that offset in it (provided the file name and its first line hold no NUL, and the
/// day of the cursor can be had).
pub proof fn lemma_next_run_resumes_after_chunk(
    st: NextModel,
    name: Seq<char>,
    ls: Seq<Result<Seq<char>, Seq<char>>>,
    content: Option<LineReadModel>,
    from: int,
    count: int,
    text: Seq<char>,
)
    requires
        0 <= st.foffset <= usize::MAX,
        spec_file_step(st, name, Ok(ls), content) == FileStepModel::Emit(from, count, Some(Ok::<Seq<char>, Seq<char>>(text))),
        !name.contains('\0'),
        ls.len() > 0,
        ls[0] is Ok,
        !(ls[0]->Ok_0).contains('\0'),
    ensures
        spec_cursor_file_read(Some(encode_utf8(text))) is Ok,
        ({
            let c = spec_cursor_file_read(Some(encode_utf8(text)))->Ok_0;
            &&& c.cfile == name
            &&& c.foffset == from + count
            &&& c.first_line == ls[0]->Ok_0
            &&& (spec_ts_day_trim(c.cts) is Ok ==> spec_start_state(c, Some(LineReadModel::Line(ls[0]->Ok_0))) is Ok)
            &&& (spec_start_state(c, Some(LineReadModel::Line(ls[0]->Ok_0))) matches Ok((m, _)) ==> {
                &&& !m.file_rotated
                &&& m.cfile == name
                &&& m.foffset == from + count
                &&& m.first_match_line_nb == 0
            })
        }),
{
    let lines: Result<Seq<Result<Seq<char>, Seq<char>>>, Seq<char>> = Ok(ls);
    let st1 = rotation_step(st, name, lines)->Ok_0;
    assert(st1.foffset == st.foffset);
    let (s, fl) = match start_step(st1, name, lines, content) {
        StartModel::Found(s, fl) => (s, fl),
        _ => { assert(false); (st1, Seq::empty()) },
    };
    assert(s.foffset == st.foffset || s.foffset == 0);
    let st2 = if name != s.cfile { NextModel { foffset: 0, ..s } } else { s };
    let pid = line_pid(fl)->Some_0;
    let base = (st2.foffset as usize) as int;
    assert(base == st2.foffset);
    let (k, last_line) = (find_end_from(ls, base, base, pid, (st2.first_match_line_nb as int, fl))->Some_0)->Ok_0;
    let lt = log_datetime_timestamp(date_time_part(last_line))->Ok_0;
    assert(end_step(s, name, fl, lines) == FileStepModel::Emit(base, k + 1, emit_cursor(st2, name, lt, k, ls)));
    let c = CursorModel { cts: lt, foffset: (st2.foffset + k + 1) as i64, cfile: name, first_line: ls[0]->Ok_0 };
    assert(text == spec_cursor_text(c));
    lemma_cursor_roundtrip(c);
}


/// A log file that is not the cursor's file is searched from its top, whatever offset the
/// cursor holds (where no rotation is pending and no chunk is carried over in a content
/// file): a chunk handed out from it starts at its first line, a start line at its top is
/// never passed over, and changing the cursor's offset changes nothing but the offset of
/// the state handed back where the file is passed over.
pub proof fn lemma_other_file_searched_from_top(
    st: NextModel,
    name: Seq<char>,
    ls: Seq<Result<Seq<char>, Seq<char>>>,
    off: i64,
)
    requires
        name != st.cfile,
        !st.file_rotated,
    ensures
        spec_file_step(st, name, Ok(ls), None) matches FileStepModel::Emit(from, _, _) ==> from == 0,
        ls.len() > 0 && ls[0] is Ok && regex_is_match(FIRST_LINE_PATTERN@, ls[0]->Ok_0) ==> !(spec_file_step(
            st,
            name,
            Ok(ls),
            None,
        ) is Skip),
        ({
            let a = spec_file_step(st, name, Ok(ls), None);
            let b = spec_file_step(NextModel { foffset: off, ..st }, name, Ok(ls), None);
            (a is Skip && b is Skip) || a == b
        }),
{
    let lines: Result<Seq<Result<Seq<char>, Seq<char>>>, Seq<char>> = Ok(ls);
    let st0 = NextModel { foffset: off, ..st };
    assert(rotation_step(st, name, lines) == Ok::<NextModel, Seq<char>>(st));
    assert(rotation_step(st0, name, lines) == Ok::<NextModel, Seq<char>>(st0));
    assert(split_on(Seq::<char>::empty(), ' ').len() == 1);
    assert(line_pid(Seq::<char>::empty()) is None);
    if st.first_match_line_nb == 0 {
        assert((0i64 as usize) as int == 0);
        if ls.len() > 0 && ls[0] is Ok && regex_is_match(FIRST_LINE_PATTERN@, ls[0]->Ok_0) {
            assert(find_start_from(ls, 0, 0) == Some(Ok::<(int, Seq<char>), Seq<char>>((0, ls[0]->Ok_0))));
        }
        let s = NextModel { first_match_line_nb: 0, foffset: 0, cfile: name, ..st };
        let s0 = NextModel { first_match_line_nb: 0, foffset: 0, cfile: name, ..st0 };
        assert(s == s0);
        assert(start_step(st, name, lines, None) == match start_step(st0, name, lines, None) {
            StartModel::Skip(_) => StartModel::Skip(st),
            x => x,
        });
        if let StartModel::Found(s1, fl) = start_step(st, name, lines, None) {
            assert(s1.cfile == name && s1.foffset == 0);
        }
    }
}

proof fn lemma_find_start_none(ls: Seq<Result<Seq<char>, Seq<char>>>, base: int, i: int)
    requires
        0 <= base <= i,
        forall|j: int| i <= j < ls.len() ==> (#[trigger] ls[j] is Ok && !regex_is_match(FIRST_LINE_PATTERN@, ls[j]->Ok_0)),
    ensures
        find_start_from(ls, base, i) is None,
    decreases ls.len() - i,
{
    if i < ls.len() {
        lemma_find_start_none(ls, base, i + 1);
    }
}

/// Resuming in the file `name` at its offset (not rotated, no chunk carried over), the
/// search for the next chunk starts at that offset: a chunk handed out starts there, and
/// where no start line follows the offset the file is passed over unchanged.
pub proof fn lemma_resumed_search(m: NextModel, name: Seq<char>, ls: Seq<Result<Seq<char>, Seq<char>>>)
    requires
        m.cfile == name,
        !m.file_rotated,
        m.first_match_line_nb == 0,
        0 <= m.foffset <= usize::MAX,
    ensures
        spec_file_step(m, name, Ok(ls), None) matches FileStepModel::Emit(f2, _, _) ==> f2 == m.foffset,
        (forall|j: int| m.foffset <= j < ls.len() ==> (#[trigger] ls[j] is Ok && !regex_is_match(FIRST_LINE_PATTERN@, ls[j]->Ok_0)))
            && regex_new_result(FIRST_LINE_PATTERN@) is Ok ==> spec_file_step(m, name, Ok(ls), None) == FileStepModel::Skip(m),
{
    let lines: Result<Seq<Result<Seq<char>, Seq<char>>>, Seq<char>> = Ok(ls);
    assert(rotation_step(m, name, lines) == Ok::<NextModel, Seq<char>>(m));
    let base = (m.foffset as usize) as int;
    assert(base == m.foffset);
    if forall|j: int| m.foffset <= j < ls.len() ==> (#[trigger] ls[j] is Ok && !regex_is_match(FIRST_LINE_PATTERN@, ls[j]->Ok_0)) {
        lemma_find_start_none(ls, base, base);
    }
    if spec_file_step(m, name, lines, None) is Emit {
        let (j, first) = find_start_from(ls, base, base)->Some_0->Ok_0;
        let s2 = NextModel { first_match_line_nb: 0, foffset: m.foffset, cfile: name, ..m };
        assert(start_step(m, name, lines, None) == StartModel::Found(s2, first));
    }
}

/// A chunk found in a file and handed out is not handed out again: in the next run, while
/// the file still starts with the same line, a chunk handed out from that file starts right
/// after the first one, and where no start line follows it the file is passed over.
pub proof fn lemma_chunk_not_emitted_again(
    st: NextModel,
    name: Seq<char>,
    ls: Seq<Result<Seq<char>, Seq<char>>>,
    from: int,
    count: int,
    text: Seq<char>,
)
    requires
        0 <= st.foffset <= usize::MAX,
        st.first_match_line_nb == 0,
        ls.len() <= usize::MAX,
        spec_file_step(st, name, Ok(ls), None) == FileStepModel::Emit(from, count, Some(Ok::<Seq<char>, Seq<char>>(text))),
        !name.contains('\0'),
        ls.len() > 0,
        ls[0] is Ok,
        !(ls[0]->Ok_0).contains('\0'),
    ensures
        ({
            let c = spec_cursor_file_read(Some(encode_utf8(text)))->Ok_0;
            spec_start_state(c, Some(LineReadModel::Line(ls[0]->Ok_0))) matches Ok((m, _)) ==> {
                &&& spec_file_step(m, name, Ok(ls), None) matches FileStepModel::Emit(f2, _, _) ==> f2 == from + count
                &&& (forall|j: int| from + count <= j < ls.len() ==> (#[trigger] ls[j] is Ok && !regex_is_match(
                    FIRST_LINE_PATTERN@,
                    ls[j]->Ok_0,
                ))) && regex_new_result(FIRST_LINE_PATTERN@) is Ok ==> spec_file_step(m, name, Ok(ls), None)
                    == FileStepModel::Skip(m)
            }
        }),
{
    lemma_next_run_resumes_after_chunk(st, name, ls, None, from, count, text);
    lemma_emitted_chunk_is_whole(st, name, Ok(ls), from, count, Some(Ok::<Seq<char>, Seq<char>>(text)));
    let c = spec_cursor_file_read(Some(encode_utf8(text)))->Ok_0;
    if spec_start_state(c, Some(LineReadModel::Line(ls[0]->Ok_0))) is Ok {
        let (m, _) = spec_start_state(c, Some(LineReadModel::Line(ls[0]->Ok_0)))->Ok_0;
        lemma_resumed_search(m, name, ls);
    }
}

/// A rotated file is followed by its first line: where the cursor's file was rotated and the
/// next file read, `r`, starts with the cursor's first line, reading `r` goes exactly as it
/// would had the cursor named `r` (whose first line then reads as it was recorded).
pub proof fn lemma_rotation_followed(
    c: CursorModel,
    cfirst: LineReadModel,
    r: Seq<char>,
    ls: Seq<Result<Seq<char>, Seq<char>>>,
    content: Option<LineReadModel>,
)
    requires
        r.len() > 0,
        ls.len() > 0,
        ls[0] == Ok::<Seq<char>, Seq<char>>(c.first_line),
        spec_start_state(c, Some(cfirst)) matches Ok((m1, _)) && m1.file_rotated,
    ensures
        ({
            let c2 = CursorModel { cfile: r, ..c };
            let (m1, d1) = spec_start_state(c, Some(cfirst))->Ok_0;
            &&& spec_start_state(c2, Some(LineReadModel::Line(c.first_line))) matches Ok((m2, d2)) && d2 == d1
                && !m2.file_rotated && spec_file_step(m1, r, Ok(ls), content) == spec_file_step(m2, r, Ok(ls), content)
        }),
{
    let c2 = CursorModel { cfile: r, ..c };
    let (m1, d1) = spec_start_state(c, Some(cfirst))->Ok_0;
    let (m2, d2) = spec_start_state(c2, Some(LineReadModel::Line(c.first_line)))->Ok_0;
    assert(!m2.file_rotated);
    let lines: Result<Seq<Result<Seq<char>, Seq<char>>>, Seq<char>> = Ok(ls);
    assert(rotation_step(m1, r, lines) == Ok::<NextModel, Seq<char>>(m2));
    assert(rotation_step(m2, r, lines) == Ok::<NextModel, Seq<char>>(m2));
}

} // verus!
