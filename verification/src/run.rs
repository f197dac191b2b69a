//! A whole run of the next action over the log files it reads, their lines read
//! beforehand: what it writes (to the content file, the output and the cursor file), in
//! order, and what it answers.

use vstd::prelude::*;
use crate::import::{fits_i64, lines_view};
use crate::lines::{first_read, last_read, opened_lines_view, spec_first_read, spec_last_read, text_view};
use vstd::utf8::encode_utf8;
use crate::next::{
    chunk_closed, chunk_lines, lemma_cursor_roundtrip, lemma_emitted_chunk_is_whole, lemma_next_run_resumes_after_chunk,
    lemma_resumed_search, lemma_rotation_followed, no_closing_line, spec_cursor_file_read, spec_cursor_text,
    spec_start_state, CursorModel, FIRST_LINE_PATTERN, LAST_LINE_PATTERN,
};
use crate::next::{date_time_part, line_pid};
use crate::clock::log_datetime_timestamp;
use crate::pattern::{regex_is_match, regex_new_result};
use crate::next::{
    after_append, file_lines_view, file_step, finish_state, result_text_view, spec_after_append,
    spec_file_step, spec_finish_state, FileStep, FileStepModel, LineRead, LineReadModel, NextModel,
    NextState,
};

verus! {

/// What a run writes, as a model.
pub enum EffectModel {
    Append(Seq<Seq<char>>),
    Emit(Seq<Seq<char>>),
    WriteCursor(Seq<char>),
}

/// What a run writes: lines appended to the content file; the content file printed (where
/// there is one) and removed, then lines printed; the text of the cursor file.
#[derive(Debug, Clone, PartialEq, Eq)]
pub enum RunEffect {
    Append(Vec<String>),
    Emit(Vec<String>),
    WriteCursor(String),
}

/// Texts, as models.
pub open spec fn texts_view(v: Seq<String>) -> Seq<Seq<char>> {
    v.map_values(|s: String| s@)
}

impl View for RunEffect {
    type V = EffectModel;

    open spec fn view(&self) -> EffectModel {
        match self {
            RunEffect::Append(v) => EffectModel::Append(texts_view(v@)),
            RunEffect::Emit(v) => EffectModel::Emit(texts_view(v@)),
            RunEffect::WriteCursor(t) => EffectModel::WriteCursor(t@),
        }
    }
}

/// Effects, as models.
pub open spec fn effects_view(v: Seq<RunEffect>) -> Seq<EffectModel> {
    v.map_values(|e: RunEffect| e@)
}

/// The texts of the lines before the first that did not read, and that line's error.
pub open spec fn ok_prefix(ls: Seq<Result<Seq<char>, Seq<char>>>) -> (Seq<Seq<char>>, Option<Seq<char>>)
    decreases ls.len(),
{
    if ls.len() == 0 {
        (Seq::empty(), None)
    } else {
        match ls[0] {
            Err(e) => (Seq::empty(), Some(e)),
            Ok(l) => {
                let (t, e) = ok_prefix(ls.drop_first());
                (seq![l] + t, e)
            },
        }
    }
}

/// The lines from `from` on, `count` of them at most (as `skip(from).take(count)` gives them).
pub open spec fn line_range(ls: Seq<Result<Seq<char>, Seq<char>>>, from: int, count: int) -> Seq<Result<Seq<char>, Seq<char>>> {
    let a = if from < ls.len() { from } else { ls.len() as int };
    let b = if from + count < ls.len() { from + count } else { ls.len() as int };
    ls.subrange(a, if b < a { a } else { b })
}

/// The content file as read: `None` where there is none, `Err` where it did not open.
pub type ContentModel = Option<Result<Seq<Result<Seq<char>, Seq<char>>>, Seq<char>>>;

/// The content file's first line, as the run reads it.
pub open spec fn content_first(c: ContentModel) -> Option<LineReadModel> {
    match c {
        None => None,
        Some(ls) => Some(spec_first_read(ls)),
    }
}

/// The content file's last line, as the run reads it at the end: a content file at
/// `content_path` that does not open is reported with its path.
pub open spec fn content_last(c: ContentModel, content_path: Seq<char>) -> Option<LineReadModel> {
    match c {
        None => None,
        Some(Err(m)) => Some(LineReadModel::OpenError("Error opening "@ + content_path + ": "@ + m)),
        Some(ls) => Some(spec_last_read(ls)),
    }
}

/// The number of lines of the content file (none where there is none).
pub open spec fn content_count(c: ContentModel) -> Result<int, Seq<char>> {
    match c {
        None => Ok(0),
        Some(Err(m)) => Err(m),
        Some(Ok(ls)) => Ok(ls.len() as int),
    }
}

/// The content file once `added` lines are appended to it.
pub open spec fn content_after(c: ContentModel, added: Seq<Seq<char>>) -> ContentModel {
    let more = added.map_values(|l: Seq<char>| Ok::<Seq<char>, Seq<char>>(l));
    match c {
        None => Some(Ok(more)),
        Some(Err(m)) => Some(Err(m)),
        Some(Ok(ls)) => Some(Ok(ls + more)),
    }
}

/// The effects written before a run's remaining ones.
pub open spec fn prepend(e: Seq<EffectModel>, r: Option<(Seq<EffectModel>, Result<bool, Seq<char>>)>) -> Option<
    (Seq<EffectModel>, Result<bool, Seq<char>>),
> {
    match r {
        None => None,
        Some((e2, res)) => Some((e + e2, res)),
    }
}

/// The log files of a run, each with its lines (or the error opening it).
pub type FilesModel = Seq<(Seq<char>, Result<Seq<Result<Seq<char>, Seq<char>>>, Seq<char>>)>;

/// The lines of a file, none where it did not open.
pub open spec fn lines_or_none(lines: Result<Seq<Result<Seq<char>, Seq<char>>>, Seq<char>>) -> Seq<Result<Seq<char>, Seq<char>>> {
    match lines {
        Ok(ls) => ls,
        Err(_) => Seq::empty(),
    }
}

/// `Can't read line: <e>`.
pub open spec fn unreadable_line(e: Seq<char>) -> Seq<char> {
    "Can't read line: "@ + e
}

/// A run of the next action over `files`, from state `st`, with the content file `c` (at
/// `content_path`), the live log at `path` and its first line `first`: the effects in order and the answer, or
/// `None` where the run aborts (an offset, a time or a count leaves the `i64` range).
/// File by file: a failed step answers its error; a file passed over changes only the
/// state; the rest of a file is appended to the content file (up to a line that does not
/// read, whose error is the answer) and the offset moves by the lines added; a chunk is
/// handed out (the content file, then the chunk's lines, then the cursor). After the last
/// file the cursor is written and the answer is `false`.
pub open spec fn spec_next_run(
    st: NextModel,
    files: FilesModel,
    c: ContentModel,
    content_path: Seq<char>,
    path: Seq<char>,
    first: LineReadModel,
) -> Option<
    (Seq<EffectModel>, Result<bool, Seq<char>>),
>
    decreases files.len(),
{
    if files.len() == 0 {
        match spec_finish_state(st, path, first, content_last(c, content_path)) {
            Err(e) => Some((Seq::empty(), Err(e))),
            Ok(t) => Some((seq![EffectModel::WriteCursor(t)], Ok(false))),
        }
    } else {
        let name = files[0].0;
        let lines = files[0].1;
        let rest = files.drop_first();
        if lines is Ok && lines->Ok_0.len() >= i64::MAX {
            None
        } else {
            match spec_file_step(st, name, lines, content_first(c)) {
                FileStepModel::Fail(e) => Some((Seq::empty(), Err(e))),
                FileStepModel::Skip(s) => spec_next_run(s, rest, c, content_path, path, first),
                FileStepModel::Append(s, from) => match content_count(c) {
                    Err(m) => Some((Seq::empty(), Err(m))),
                    Ok(old) => {
                        let ls = lines_or_none(lines);
                        let (added, err) = ok_prefix(line_range(ls, from, ls.len() as int));
                        match err {
                            Some(e) => Some((seq![EffectModel::Append(added)], Err(e))),
                            None => if old + added.len() > i64::MAX || old + added.len() > usize::MAX {
                                None
                            } else {
                                match spec_after_append(s, old, old + added.len()) {
                                    None => None,
                                    Some(s2) => prepend(
                                        seq![EffectModel::Append(added)],
                                        spec_next_run(s2, rest, content_after(c, added), content_path, path, first),
                                    ),
                                }
                            },
                        }
                    },
                },
                FileStepModel::Emit(from, count, cursor) => {
                    let (printed, err) = ok_prefix(line_range(lines_or_none(lines), from, count));
                    match err {
                        Some(e) => Some((seq![EffectModel::Emit(printed)], Err(unreadable_line(e)))),
                        None => match cursor {
                            None => None,
                            Some(Err(e)) => Some((seq![EffectModel::Emit(printed)], Err(e))),
                            Some(Ok(t)) => Some((seq![EffectModel::Emit(printed), EffectModel::WriteCursor(t)], Ok(true))),
                        },
                    }
                },
                FileStepModel::Overflow => None,
            }
        }
    }
}

/// The log files of a run, as models.
pub open spec fn files_view(files: Seq<(String, Result<Vec<Result<String, String>>, String>)>) -> FilesModel {
    files.map_values(|f: (String, Result<Vec<Result<String, String>>, String>)| (f.0@, file_lines_view(f.1)))
}

/// The content file as read, as a model.
pub open spec fn content_model(c: Option<Result<Vec<Result<String, String>>, String>>) -> ContentModel {
    match c {
        None => None,
        Some(x) => Some(opened_lines_view(x)),
    }
}

/// An answer, as a model.
pub open spec fn answer_view(r: Result<bool, String>) -> Result<bool, Seq<char>> {
    match r {
        Ok(b) => Ok(b),
        Err(e) => Err(e@),
    }
}

/// The texts of the lines in `line_range(ls, from, count)` before the first that did not
/// read, and that line's error.
fn ok_prefix_range(ls: &Vec<Result<String, String>>, from: usize, count: usize) -> (r: (Vec<String>, Option<String>))
    ensures
        (texts_view(r.0@), crate::lines::text_view(r.1)) == ok_prefix(line_range(lines_view(ls@), from as int, count as int)),
{
    let ghost lv = lines_view(ls@);
    let len = ls.len();
    let a: usize = if from < len { from } else { len };
    let b: usize = if from < len && count < len - from { from + count } else { len };
    let ghost range = line_range(lv, from as int, count as int);
    assert(range =~= lv.subrange(a as int, b as int));
    let mut out: Vec<String> = Vec::new();
    let mut j: usize = a;
    assert(texts_view(out@) =~= Seq::<Seq<char>>::empty());
    assert(lv.subrange(a as int, b as int) =~= lv.subrange(j as int, b as int));
    while j < b
        invariant
            a <= j <= b <= len,
            len == ls@.len(),
            lv == lines_view(ls@),
            range == lv.subrange(a as int, b as int),
            range == line_range(lines_view(ls@), from as int, count as int),
            ok_prefix(range) == (texts_view(out@) + ok_prefix(lv.subrange(j as int, b as int)).0, ok_prefix(
                lv.subrange(j as int, b as int),
            ).1),
        decreases b - j,
    {
        let ghost sub = lv.subrange(j as int, b as int);
        assert(sub[0] == lv[j as int]);
        assert(sub.drop_first() =~= lv.subrange(j + 1, b as int));
        match &ls[j] {
            Err(e) => {
                assert(sub[0] == Err::<Seq<char>, Seq<char>>(e@));
                assert(ok_prefix(sub) == (Seq::<Seq<char>>::empty(), Some(e@)));
                assert(texts_view(out@) + Seq::<Seq<char>>::empty() =~= texts_view(out@));
                let ec = e.clone();
                assert(crate::lines::text_view(Some(ec)) == Some(e@));
                assert(ok_prefix(range).0 =~= texts_view(out@));
                return (out, Some(ec));
            },
            Ok(l) => {
                let ghost before = texts_view(out@);
                out.push(l.clone());
                assert(texts_view(out@) =~= before.push(l@));
                let ghost t = ok_prefix(lv.subrange(j + 1, b as int)).0;
                assert(before + (seq![l@] + t) =~= before.push(l@) + t);
            },
        }
        j = j + 1;
    }
    assert(lv.subrange(j as int, b as int) =~= Seq::<Result<Seq<char>, Seq<char>>>::empty());
    assert(texts_view(out@) + Seq::<Seq<char>>::empty() =~= texts_view(out@));
    (out, None)
}


/// The texts as lines that read.
fn ok_texts(added: &Vec<String>) -> (r: Vec<Result<String, String>>)
    ensures
        lines_view(r@) == texts_view(added@).map_values(|l: Seq<char>| Ok::<Seq<char>, Seq<char>>(l)),
{
    let mut out: Vec<Result<String, String>> = Vec::new();
    let mut k: usize = 0;
    while k < added.len()
        invariant
            k <= added@.len(),
            lines_view(out@) == texts_view(added@.take(k as int)).map_values(|l: Seq<char>| Ok::<Seq<char>, Seq<char>>(l)),
        decreases added@.len() - k,
    {
        let x = added[k].clone();
        let ghost before = lines_view(out@);
        out.push(Ok(x));
        assert(lines_view(out@) =~= before.push(Ok::<Seq<char>, Seq<char>>(added@[k as int]@)));
        assert(added@.take(k + 1) =~= added@.take(k as int).push(added@[k as int]));
        assert(texts_view(added@.take(k + 1)) =~= texts_view(added@.take(k as int)).push(added@[k as int]@));
        assert(lines_view(out@) =~= texts_view(added@.take(k + 1)).map_values(|l: Seq<char>| Ok::<Seq<char>, Seq<char>>(l)));
        k = k + 1;
    }
    assert(added@.take(added@.len() as int) =~= added@);
    out
}

/// The content file once `added` is appended to it.
fn content_with(c: Option<Result<Vec<Result<String, String>>, String>>, added: &Vec<String>) -> (r: Option<
    Result<Vec<Result<String, String>>, String>,
>)
    ensures
        content_model(r) == content_after(content_model(c), texts_view(added@)),
{
    match c {
        None => Some(Ok(ok_texts(added))),
        Some(Err(m)) => Some(Err(m)),
        Some(Ok(v)) => {
            let mut v = v;
            let ghost before = lines_view(v@);
            let mut more = ok_texts(added);
            let ghost m2 = lines_view(more@);
            v.append(&mut more);
            assert(lines_view(v@) =~= before + m2);
            Some(Ok(v))
        },
    }
}

/// A run of the next action over the log files `files` (in the order they are read, each
/// with its lines or the error opening it), from state `st`, with the content file
/// `content` (at `content_path`) and the first line `first` of the live log at `path`: the effects to carry out,
/// in order, and the answer; `None` where the run aborts.
#[verifier::rlimit(60)]
pub fn next_run(
    st: NextState,
    files: &Vec<(String, Result<Vec<Result<String, String>>, String>)>,
    content: Option<Result<Vec<Result<String, String>>, String>>,
    content_path: &str,
    path: &str,
    first: LineRead,
) -> (r: Option<(Vec<RunEffect>, Result<bool, String>)>)
    requires
        st.first_match_line_nb <= 1,
    ensures
        match (r, spec_next_run(st@, files_view(files@), content_model(content), content_path@, path@, first@)) {
            (None, None) => true,
            (Some((e, a)), Some((e2, a2))) => effects_view(e@) == e2 && answer_view(a) == a2,
            _ => false,
        },
{
    let ghost fv = files_view(files@);
    let ghost whole = spec_next_run(st@, fv, content_model(content), content_path@, path@, first@);
    let mut cur = st;
    let mut con = content;
    let mut effects: Vec<RunEffect> = Vec::new();
    let mut i: usize = 0;
    assert(fv.skip(0) =~= fv);
    assert(effects_view(effects@) =~= Seq::<EffectModel>::empty());
    assert(whole == prepend(effects_view(effects@), whole)) by {
        if whole is Some {
            assert(Seq::<EffectModel>::empty() + whole->Some_0.0 =~= whole->Some_0.0);
        }
    }
    while i < files.len()
        invariant
            i <= files@.len(),
            fv == files_view(files@),
            cur.first_match_line_nb <= 1,
            whole == spec_next_run(st@, fv, content_model(content), content_path@, path@, first@),
            whole == prepend(effects_view(effects@), spec_next_run(cur@, fv.skip(i as int), content_model(con), content_path@, path@, first@)),
        decreases files@.len() - i,
    {
        let ghost rest = fv.skip(i as int);
        let ghost ev = effects_view(effects@);
        assert(rest[0] == fv[i as int]);
        assert(rest.drop_first() =~= fv.skip(i + 1));
        let name = &files[i].0;
        let lines = &files[i].1;
        assert(fv[i as int] == (name@, file_lines_view(*lines)));
        assert(rest.len() > 0);
        let ghost tail = spec_next_run(cur@, rest, content_model(con), content_path@, path@, first@);
        match lines {
            Ok(ls) => {
                if ls.len() as u64 >= 0x7fff_ffff_ffff_ffffu64 {
                    return None;
                }
            },
            Err(_) => {},
        }
        let cfirst = match &con {
            None => None,
            Some(x) => Some(first_read(x)),
        };
        assert(crate::next::content_view(cfirst) == content_first(content_model(con)));
        match file_step(&cur, name.as_str(), lines, &cfirst) {
            FileStep::Fail(e) => {
                assert(tail == Some((Seq::<EffectModel>::empty(), Err::<bool, Seq<char>>(e@))));
                assert(ev + Seq::<EffectModel>::empty() =~= ev);
                return Some((effects, Err(e)));
            },
            FileStep::Skip(s) => {
                cur = s;
            },
            FileStep::Append(s, from) => {
                let old: usize = match &con {
                    None => 0,
                    Some(Err(m)) => {
                        assert(ev + Seq::<EffectModel>::empty() =~= ev);
                        return Some((effects, Err(m.clone())));
                    },
                    Some(Ok(v)) => v.len(),
                };
                let (added, err) = match lines {
                    Ok(ls) => ok_prefix_range(ls, from, ls.len()),
                    Err(_) => {
                        assert(line_range(Seq::<Result<Seq<char>, Seq<char>>>::empty(), from as int, 0) =~= Seq::<
                            Result<Seq<char>, Seq<char>>,
                        >::empty());
                        (Vec::new(), None)
                    },
                };
                assert(texts_view(added@).len() == added@.len());
                match err {
                    Some(e) => {
                        let ghost a = RunEffect::Append(added)@;
                        effects.push(RunEffect::Append(added));
                        assert(effects_view(effects@) =~= ev + seq![a]);
                        return Some((effects, Err(e)));
                    },
                    None => {
                        if old as u64 > 0x7fff_ffff_ffff_ffffu64 || added.len() as u64 > 0x7fff_ffff_ffff_ffffu64 - (
                        old as u64) {
                            return None;
                        }
                        let new = match old.checked_add(added.len()) {
                            Some(n) => n,
                            None => {
                                return None;
                            },
                        };
                        match after_append(s, old, new) {
                            None => {
                                return None;
                            },
                            Some(s2) => {
                                con = content_with(con, &added);
                                let ghost a = RunEffect::Append(added)@;
                                effects.push(RunEffect::Append(added));
                                assert(effects_view(effects@) =~= ev + seq![a]);
                                cur = s2;
                                proof {
                                    let tail = spec_next_run(cur@, fv.skip(i + 1), content_model(con), content_path@, path@, first@);
                                    if tail is Some {
                                        assert(ev + (seq![a] + tail->Some_0.0) =~= (ev + seq![a]) + tail->Some_0.0);
                                    }
                                }
                            },
                        }
                    },
                }
            },
            FileStep::Emit(from, count, cursor) => {
                let (printed, err) = match lines {
                    Ok(ls) => ok_prefix_range(ls, from, count),
                    Err(_) => {
                        assert(line_range(Seq::<Result<Seq<char>, Seq<char>>>::empty(), from as int, count as int) =~= Seq::<
                            Result<Seq<char>, Seq<char>>,
                        >::empty());
                        (Vec::new(), None)
                    },
                };
                let ghost p = RunEffect::Emit(printed)@;
                match err {
                    Some(e) => {
                        effects.push(RunEffect::Emit(printed));
                        assert(effects_view(effects@) =~= ev + seq![p]);
                        let mut msg = "Can't read line: ".to_owned();
                        msg.append(e.as_str());
                        return Some((effects, Err(msg)));
                    },
                    None => match cursor {
                        None => {
                            return None;
                        },
                        Some(Err(e)) => {
                            effects.push(RunEffect::Emit(printed));
                            assert(effects_view(effects@) =~= ev + seq![p]);
                            return Some((effects, Err(e)));
                        },
                        Some(Ok(t)) => {
                            let ghost w = RunEffect::WriteCursor(t)@;
                            effects.push(RunEffect::Emit(printed));
                            effects.push(RunEffect::WriteCursor(t));
                            assert(effects_view(effects@) =~= ev + seq![p, w]);
                            return Some((effects, Ok(true)));
                        },
                    },
                }
            },
            FileStep::Overflow => {
                return None;
            },
        }
        i = i + 1;
    }
    assert(fv.skip(i as int) =~= FilesModel::empty());
    let cl = match &con {
        None => None,
        Some(Err(m)) => {
            let mut msg = "Error opening ".to_owned();
            msg.append(content_path);
            msg.append(": ");
            msg.append(m.as_str());
            Some(LineRead::OpenError(msg))
        },
        Some(x) => Some(last_read(x)),
    };
    assert(crate::next::content_view(cl) == content_last(content_model(con), content_path@));
    let ghost ev = effects_view(effects@);
    match finish_state(&cur, path, first, cl) {
        Err(e) => {
            assert(ev + Seq::<EffectModel>::empty() =~= ev);
            Some((effects, Err(e)))
        },
        Ok(t) => {
            let ghost w = RunEffect::WriteCursor(t)@;
            effects.push(RunEffect::WriteCursor(t));
            assert(effects_view(effects@) =~= ev + seq![w]);
            Some((effects, Ok(false)))
        },
    }
}


/// The content file after the appends among `effects`, in order.
pub open spec fn content_after_all(c: ContentModel, effects: Seq<EffectModel>) -> ContentModel
    decreases effects.len(),
{
    if effects.len() == 0 {
        c
    } else {
        content_after_all(
            match effects[0] {
                EffectModel::Append(added) => content_after(c, added),
                _ => c,
            },
            effects.drop_first(),
        )
    }
}

proof fn lemma_step_keeps_cts(
    st: NextModel,
    name: Seq<char>,
    lines: Result<Seq<Result<Seq<char>, Seq<char>>>, Seq<char>>,
    content: Option<LineReadModel>,
)
    ensures
        spec_file_step(st, name, lines, content) matches FileStepModel::Skip(s) ==> s.cts == st.cts,
        spec_file_step(st, name, lines, content) matches FileStepModel::Append(s, _) ==> s.cts == st.cts,
{
}

/// A run that finds no complete chunk prints nothing: it only appends to the content file
/// and then writes, last, the cursor that finishing gives for some state that keeps the
/// cursor's time, with the content file as those appends left it.
pub proof fn lemma_run_without_chunk(
    st: NextModel,
    files: FilesModel,
    c: ContentModel,
    content_path: Seq<char>,
    path: Seq<char>,
    first: LineReadModel,
)
    requires
        spec_next_run(st, files, c, content_path, path, first) matches Some((_, Ok(b))) && !b,
    ensures
        ({
            let effects = spec_next_run(st, files, c, content_path, path, first)->Some_0.0;
            &&& effects.len() >= 1
            &&& forall|i: int| 0 <= i < effects.len() - 1 ==> #[trigger] effects[i] is Append
            &&& effects.last() is WriteCursor
            &&& exists|sf: NextModel|
                sf.cts == st.cts && spec_finish_state(
                    sf,
                    path,
                    first,
                    content_last(content_after_all(c, effects.drop_last()), content_path),
                ) == Ok::<Seq<char>, Seq<char>>(effects.last()->WriteCursor_0)
        }),
    decreases files.len(),
{
    let effects = spec_next_run(st, files, c, content_path, path, first)->Some_0.0;
    if files.len() == 0 {
        assert(effects.drop_last() =~= Seq::<EffectModel>::empty());
        assert(content_after_all(c, effects.drop_last()) == c);
    } else {
        let name = files[0].0;
        let lines = files[0].1;
        let rest = files.drop_first();
        lemma_step_keeps_cts(st, name, lines, content_first(c));
        match spec_file_step(st, name, lines, content_first(c)) {
            FileStepModel::Skip(s) => {
                lemma_run_without_chunk(s, rest, c, content_path, path, first);
            },
            FileStepModel::Append(s, from) => {
                let old = content_count(c)->Ok_0;
                let ls = lines_or_none(lines);
                let added = ok_prefix(line_range(ls, from, ls.len() as int)).0;
                let s2 = spec_after_append(s, old, old + added.len())->Some_0;
                let c2 = content_after(c, added);
                lemma_run_without_chunk(s2, rest, c2, content_path, path, first);
                let e2 = spec_next_run(s2, rest, c2, content_path, path, first)->Some_0.0;
                assert(effects == seq![EffectModel::Append(added)] + e2);
                assert(effects.drop_last() =~= seq![EffectModel::Append(added)] + e2.drop_last());
                assert((seq![EffectModel::Append(added)] + e2.drop_last()).drop_first() =~= e2.drop_last());
                assert(content_after_all(c, effects.drop_last()) == content_after_all(c2, e2.drop_last()));
                assert forall|i: int| 0 <= i < effects.len() - 1 implies #[trigger] effects[i] is Append by {
                    if i > 0 {
                        assert(effects[i] == e2[i - 1]);
                    }
                }
            },
            _ => {},
        }
    }
}

/// A run that hands out a chunk hands out exactly one: it appends to the content file, then
/// prints (the content file and) the chunk's lines, then writes the cursor, last.
pub proof fn lemma_run_with_chunk(
    st: NextModel,
    files: FilesModel,
    c: ContentModel,
    content_path: Seq<char>,
    path: Seq<char>,
    first: LineReadModel,
)
    requires
        spec_next_run(st, files, c, content_path, path, first) matches Some((_, Ok(b))) && b,
    ensures
        ({
            let effects = spec_next_run(st, files, c, content_path, path, first)->Some_0.0;
            &&& effects.len() >= 2
            &&& forall|i: int| 0 <= i < effects.len() - 2 ==> #[trigger] effects[i] is Append
            &&& effects[effects.len() - 2] is Emit
            &&& effects.last() is WriteCursor
        }),
    decreases files.len(),
{
    let effects = spec_next_run(st, files, c, content_path, path, first)->Some_0.0;
    if files.len() > 0 {
        let name = files[0].0;
        let lines = files[0].1;
        let rest = files.drop_first();
        match spec_file_step(st, name, lines, content_first(c)) {
            FileStepModel::Skip(s) => {
                lemma_run_with_chunk(s, rest, c, content_path, path, first);
            },
            FileStepModel::Append(s, from) => {
                let old = content_count(c)->Ok_0;
                let ls = lines_or_none(lines);
                let added = ok_prefix(line_range(ls, from, ls.len() as int)).0;
                let s2 = spec_after_append(s, old, old + added.len())->Some_0;
                let c2 = content_after(c, added);
                lemma_run_with_chunk(s2, rest, c2, content_path, path, first);
                let e2 = spec_next_run(s2, rest, c2, content_path, path, first)->Some_0.0;
                assert(effects == seq![EffectModel::Append(added)] + e2);
                assert forall|i: int| 0 <= i < effects.len() - 2 implies #[trigger] effects[i] is Append by {
                    if i > 0 {
                        assert(effects[i] == e2[i - 1]);
                    }
                }
                assert(effects[effects.len() - 2] == e2[e2.len() - 2]);
            },
            _ => {},
        }
    }
}


/// Lines that all read give their texts and no error.
proof fn lemma_ok_prefix_all_ok(ls: Seq<Result<Seq<char>, Seq<char>>>)
    requires
        forall|j: int| 0 <= j < ls.len() ==> #[trigger] ls[j] is Ok,
    ensures
        ok_prefix(ls).1 is None,
        ok_prefix(ls).0.len() == ls.len(),
        forall|j: int| 0 <= j < ls.len() ==> #[trigger] ok_prefix(ls).0[j] == ls[j]->Ok_0,
    decreases ls.len(),
{
    if ls.len() > 0 {
        let rest = ls.drop_first();
        assert forall|j: int| 0 <= j < rest.len() implies #[trigger] rest[j] is Ok by {
            assert(rest[j] == ls[j + 1]);
        }
        lemma_ok_prefix_all_ok(rest);
        assert(ls[0] is Ok);
        let t = ok_prefix(rest).0;
        assert forall|j: int| 0 <= j < ls.len() implies #[trigger] ok_prefix(ls).0[j] == ls[j]->Ok_0 by {
            if j > 0 {
                assert((seq![ls[0]->Ok_0] + t)[j] == t[j - 1]);
                assert(rest[j - 1] == ls[j]);
            }
        }
    }
}

/// The texts of the lines `from .. from + count` (all of which read).
pub open spec fn chunk_texts(ls: Seq<Result<Seq<char>, Seq<char>>>, from: int, count: int) -> Seq<Seq<char>> {
    Seq::new(count as nat, |j: int| ls[from + j]->Ok_0)
}

/// The lines `from .. from + count` are a whole chunk, as `lemma_emitted_chunk_is_whole`
/// states it, and `t` is the cursor written with it for the log `p`.
pub open spec fn whole_chunk_with_cursor(
    ls: Seq<Result<Seq<char>, Seq<char>>>,
    p: Seq<char>,
    from: int,
    count: int,
    t: Seq<char>,
) -> bool {
    &&& 0 <= from
    &&& 1 <= count
    &&& from + count <= ls.len()
    &&& ls[from] is Ok
    &&& regex_is_match(FIRST_LINE_PATTERN@, ls[from]->Ok_0)
    &&& line_pid(ls[from]->Ok_0) is Some
    &&& chunk_lines(ls, from, count - 1, line_pid(ls[from]->Ok_0)->Some_0)
    &&& chunk_closed(ls, from, count, line_pid(ls[from]->Ok_0)->Some_0)
    &&& no_closing_line(ls, from, from + count - 1)
    &&& ls[0] is Ok
    &&& t == spec_cursor_text(
        CursorModel {
            cts: log_datetime_timestamp(date_time_part(ls[from + count - 1]->Ok_0))->Ok_0,
            foffset: (from + count) as i64,
            cfile: p,
            first_line: ls[0]->Ok_0,
        },
    )
}

/// A run over the live log `p` alone (no content file) that hands out a chunk prints
/// exactly a whole chunk of `p`'s lines, from its start line up to its end, and writes the
/// cursor that holds the time of its last line, the offset just past it, `p` and `p`'s
/// first line.
pub proof fn lemma_run_emits_whole_chunk(
    st: NextModel,
    p: Seq<char>,
    ls: Seq<Result<Seq<char>, Seq<char>>>,
    content_path: Seq<char>,
    first: LineReadModel,
)
    requires
        0 <= st.foffset <= usize::MAX,
        st.first_match_line_nb == 0,
        spec_next_run(st, seq![(p, Ok(ls))], None, content_path, p, first) matches Some((_, Ok(b))) && b,
    ensures
        exists|from: int, count: int, t: Seq<char>|
            whole_chunk_with_cursor(ls, p, from, count, t) && spec_next_run(st, seq![(p, Ok(ls))], None, content_path, p, first)
                == Some((seq![EffectModel::Emit(chunk_texts(ls, from, count)), EffectModel::WriteCursor(t)], Ok::<bool, Seq<char>>(true))),
{
    reveal_with_fuel(spec_next_run, 2);
    let files: FilesModel = seq![(p, Ok(ls))];
    let lines: Result<Seq<Result<Seq<char>, Seq<char>>>, Seq<char>> = Ok(ls);
    assert(files[0] == (p, lines));
    assert(files.drop_first() =~= FilesModel::empty());
    match spec_file_step(st, p, lines, None) {
        FileStepModel::Emit(from, count, cursor) => {
            lemma_emitted_chunk_is_whole(st, p, lines, from, count, cursor);
            let r = line_range(ls, from, count);
            assert(r =~= ls.subrange(from, from + count));
            assert forall|j: int| 0 <= j < r.len() implies #[trigger] r[j] is Ok by {
                assert(r[j] == ls[from + j]);
            }
            lemma_ok_prefix_all_ok(r);
            assert(ok_prefix(r).0 =~= chunk_texts(ls, from, count)) by {
                assert forall|j: int| 0 <= j < count implies #[trigger] ok_prefix(r).0[j] == chunk_texts(ls, from, count)[j] by {
                    assert(r[j] == ls[from + j]);
                }
            }
            let t = cursor->Some_0->Ok_0;
            assert(ls[0] is Ok);
            assert(fits_i64(from + count));
            assert(whole_chunk_with_cursor(ls, p, from, count, t));
        },
        FileStepModel::Append(s, from) => {
            assert(false);
        },
        _ => {},
    }
}


/// A chunk handed out is never handed out again: where a run over the live log `p` alone
/// (no content file) handed out a chunk and wrote the cursor `t`, the next run, from the
/// state that cursor gives while `p` is unchanged, finds no start line after the chunk and
/// so prints nothing and writes the same cursor again (provided `p` and its first line hold
/// no NUL).
pub proof fn lemma_chunk_never_emitted_twice(
    st: NextModel,
    p: Seq<char>,
    ls: Seq<Result<Seq<char>, Seq<char>>>,
    content_path: Seq<char>,
)
    requires
        0 <= st.foffset <= usize::MAX,
        st.first_match_line_nb == 0,
        ls.len() <= usize::MAX,
        ls.len() > 0,
        ls[0] is Ok,
        !p.contains('\0'),
        !(ls[0]->Ok_0).contains('\0'),
        spec_next_run(st, seq![(p, Ok(ls))], None, content_path, p, LineReadModel::Line(ls[0]->Ok_0)) matches Some(
            (_, Ok(b)),
        ) && b,
    ensures
        ({
            let first = LineReadModel::Line(ls[0]->Ok_0);
            let effects = spec_next_run(st, seq![(p, Ok(ls))], None, content_path, p, first)->Some_0.0;
            let t = effects.last()->WriteCursor_0;
            &&& effects.last() is WriteCursor
            &&& spec_cursor_file_read(Some(encode_utf8(t))) is Ok
            &&& ({
                let c = spec_cursor_file_read(Some(encode_utf8(t)))->Ok_0;
                spec_start_state(c, Some(first)) matches Ok((m, _)) ==> ((forall|j: int|
                    c.foffset <= j < ls.len() ==> (#[trigger] ls[j] is Ok && !regex_is_match(
                        FIRST_LINE_PATTERN@,
                        ls[j]->Ok_0,
                    ))) && regex_new_result(FIRST_LINE_PATTERN@) is Ok ==> spec_next_run(
                    m,
                    seq![(p, Ok(ls))],
                    None,
                    content_path,
                    p,
                    first,
                ) == Some((seq![EffectModel::WriteCursor(t)], Ok::<bool, Seq<char>>(false))))
            })
        }),
{
    let first = LineReadModel::Line(ls[0]->Ok_0);
    lemma_run_emits_whole_chunk(st, p, ls, content_path, first);
    let (from, count, t) = choose|from: int, count: int, t: Seq<char>|
        whole_chunk_with_cursor(ls, p, from, count, t) && spec_next_run(st, seq![(p, Ok(ls))], None, content_path, p, first)
            == Some((seq![EffectModel::Emit(chunk_texts(ls, from, count)), EffectModel::WriteCursor(t)], Ok::<bool, Seq<char>>(true)));
    let effects = spec_next_run(st, seq![(p, Ok(ls))], None, content_path, p, first)->Some_0.0;
    assert(effects.last() == EffectModel::WriteCursor(t));
    let c0 = CursorModel {
        cts: log_datetime_timestamp(date_time_part(ls[from + count - 1]->Ok_0))->Ok_0,
        foffset: (from + count) as i64,
        cfile: p,
        first_line: ls[0]->Ok_0,
    };
    lemma_cursor_roundtrip(c0);
    reveal_with_fuel(spec_next_run, 2);
    let files: FilesModel = seq![(p, Ok(ls))];
    assert(files[0] == (p, Ok::<Seq<Result<Seq<char>, Seq<char>>>, Seq<char>>(ls)));
    assert(files.drop_first() =~= FilesModel::empty());
    assert(ls.len() < i64::MAX);
    if spec_start_state(c0, Some(first)) is Ok {
        let (m, _) = spec_start_state(c0, Some(first))->Ok_0;
        assert(!m.file_rotated && m.cfile == p && m.foffset == from + count && m.first_match_line_nb == 0);
        lemma_resumed_search(m, p, ls);
        if (forall|j: int| c0.foffset <= j < ls.len() ==> (#[trigger] ls[j] is Ok && !regex_is_match(
            FIRST_LINE_PATTERN@,
            ls[j]->Ok_0,
        ))) && regex_new_result(FIRST_LINE_PATTERN@) is Ok {
            assert(spec_file_step(m, p, Ok(ls), None) == FileStepModel::Skip(m));
            assert(content_first(None) == None::<LineReadModel>);
            assert(spec_finish_state(m, p, first, content_last(None, content_path)) == Ok::<Seq<char>, Seq<char>>(t));
        }
    }
}


/// A rotated file is followed by its first line, over a whole run: where the cursor's file
/// was rotated and the first file read, `r`, starts with the cursor's first line, the run
/// goes exactly as it would had the cursor named `r` (whose first line then reads as it was
/// recorded).
pub proof fn lemma_run_follows_rotation(
    c: CursorModel,
    cfirst: LineReadModel,
    r: Seq<char>,
    ls: Seq<Result<Seq<char>, Seq<char>>>,
    rest: FilesModel,
    content: ContentModel,
    content_path: Seq<char>,
    path: Seq<char>,
    first: LineReadModel,
)
    requires
        r.len() > 0,
        ls.len() > 0,
        ls[0] == Ok::<Seq<char>, Seq<char>>(c.first_line),
        spec_start_state(c, Some(cfirst)) matches Ok((m1, _)) && m1.file_rotated,
    ensures
        ({
            let c2 = CursorModel { cfile: r, ..c };
            let (m1, d1) = spec_start_state(c, Some(cfirst))->Ok_0;
            let files = seq![(r, Ok::<Seq<Result<Seq<char>, Seq<char>>>, Seq<char>>(ls))] + rest;
            spec_start_state(c2, Some(LineReadModel::Line(c.first_line))) matches Ok((m2, d2)) && d2 == d1
                && !m2.file_rotated && spec_next_run(m1, files, content, content_path, path, first) == spec_next_run(
                m2,
                files,
                content,
                content_path,
                path,
                first,
            )
        }),
{
    lemma_rotation_followed(c, cfirst, r, ls, content_first(content));
    let files = seq![(r, Ok::<Seq<Result<Seq<char>, Seq<char>>>, Seq<char>>(ls))] + rest;
    assert(files[0] == (r, Ok::<Seq<Result<Seq<char>, Seq<char>>>, Seq<char>>(ls)));
    assert(files.drop_first() =~= rest);
}

/// The log files of a run, each with the lines that `reads` gives for it.
pub open spec fn files_read(
    paths: Seq<Seq<char>>,
    reads: spec_fn(Seq<char>) -> Result<Seq<Result<Seq<char>, Seq<char>>>, Seq<char>>,
) -> FilesModel {
    paths.map_values(|q: Seq<char>| (q, reads(q)))
}

/// Files dated before the cursor's day are never read, over a whole run: leaving such a
/// file out of those found changes neither which files are read nor anything the run does.
pub proof fn lemma_run_skips_earlier_files(
    st: NextModel,
    paths: Seq<Seq<char>>,
    cts_day: i64,
    i: int,
    reads: spec_fn(Seq<char>) -> Result<Seq<Result<Seq<char>, Seq<char>>>, Seq<char>>,
    content: ContentModel,
    content_path: Seq<char>,
    path: Seq<char>,
    first: LineReadModel,
)
    requires
        0 <= i < paths.len(),
        crate::utils::spec_file_name(paths[i]) matches Some(n) && crate::next::spec_file_name_date(n) matches Ok(Some(d))
            && d < cts_day,
    ensures
        match (crate::order::spec_select_files(paths.remove(i), cts_day), crate::order::spec_select_files(paths, cts_day)) {
            (Ok(a), Ok(b)) => a == b && spec_next_run(st, files_read(a, reads), content, content_path, path, first)
                == spec_next_run(st, files_read(b, reads), content, content_path, path, first),
            (Err(a), Err(b)) => a == b,
            _ => false,
        },
{
    crate::order::lemma_select_skips_earlier_files(paths, cts_day, i);
}

/// Appending keeps what the content file held, as its first lines.
proof fn lemma_appends_keep_prefix(c: ContentModel, effects: Seq<EffectModel>)
    requires
        forall|i: int| 0 <= i < effects.len() ==> #[trigger] effects[i] is Append,
    ensures
        c matches Some(Ok(ls0)) ==> (content_after_all(c, effects) matches Some(Ok(ls1)) && ls0.len() <= ls1.len()
            && ls1.subrange(0, ls0.len() as int) == ls0),
        c is None ==> (content_after_all(c, effects) is None || content_after_all(c, effects) matches Some(Ok(_))),
    decreases effects.len(),
{
    if effects.len() > 0 {
        let rest = effects.drop_first();
        assert forall|i: int| 0 <= i < rest.len() implies #[trigger] rest[i] is Append by {
            assert(rest[i] == effects[i + 1]);
        }
        let added = effects[0]->Append_0;
        let c2 = content_after(c, added);
        lemma_appends_keep_prefix(c2, rest);
        if let Some(Ok(ls0)) = c {
            let mid = c2->Some_0->Ok_0;
            let ls1 = content_after_all(c2, rest)->Some_0->Ok_0;
            assert(mid.subrange(0, ls0.len() as int) =~= ls0);
            assert(ls1.subrange(0, ls0.len() as int) =~= mid.subrange(0, mid.len() as int).subrange(0, ls0.len() as int));
        }
    }
}

/// The time the cursor of a run without a chunk holds: that of the content file's last
/// line, or the previous cursor's where there is no content file.
pub open spec fn run_cursor_time(cf: ContentModel, cts: i64) -> i64 {
    match cf {
        Some(Ok(ls)) => log_datetime_timestamp(date_time_part(ls.last()->Ok_0))->Ok_0,
        _ => cts,
    }
}

/// The cursor text with time `cts`, offset `off`, the live log `path` and its first line
/// (empty where it has none).
pub open spec fn finish_cursor_text(cts: i64, off: i64, path: Seq<char>, first: LineReadModel) -> Seq<char> {
    spec_cursor_text(
        CursorModel {
            cts,
            foffset: off,
            cfile: path,
            first_line: match first {
                LineReadModel::Line(l) => l,
                _ => Seq::empty(),
            },
        },
    )
}

/// A run that finds no complete chunk keeps what the content file held as its first lines,
/// and writes the cursor that holds the time of the content file's last line (the previous
/// cursor's time where there is no content file), an offset, the live log `path`, and the
/// live log's first line (empty where it has none).
pub proof fn lemma_run_without_chunk_cursor(
    st: NextModel,
    files: FilesModel,
    c: ContentModel,
    content_path: Seq<char>,
    path: Seq<char>,
    first: LineReadModel,
)
    requires
        spec_next_run(st, files, c, content_path, path, first) matches Some((_, Ok(b))) && !b,
    ensures
        ({
            let effects = spec_next_run(st, files, c, content_path, path, first)->Some_0.0;
            let cf = content_after_all(c, effects.drop_last());
            &&& c matches Some(Ok(ls0)) ==> (cf matches Some(Ok(ls1)) && ls0.len() <= ls1.len() && ls1.subrange(
                0,
                ls0.len() as int,
            ) == ls0)
            &&& exists|off: i64|
                effects.last() == EffectModel::WriteCursor(#[trigger] finish_cursor_text(run_cursor_time(cf, st.cts), off, path, first))
        }),
{
    lemma_run_without_chunk(st, files, c, content_path, path, first);
    let effects = spec_next_run(st, files, c, content_path, path, first)->Some_0.0;
    let cf = content_after_all(c, effects.drop_last());
    assert forall|i: int| 0 <= i < effects.drop_last().len() implies #[trigger] effects.drop_last()[i] is Append by {
        assert(effects.drop_last()[i] == effects[i]);
    }
    lemma_appends_keep_prefix(c, effects.drop_last());
    let t = effects.last()->WriteCursor_0;
    let sf = choose|sf: NextModel|
        sf.cts == st.cts && spec_finish_state(sf, path, first, content_last(cf, content_path)) == Ok::<Seq<char>, Seq<char>>(t);
    let fl: Seq<char> = match first {
        LineReadModel::Line(l) => l,
        _ => Seq::empty(),
    };
    assert(t == spec_cursor_text(CursorModel { cts: run_cursor_time(cf, st.cts), foffset: sf.foffset, cfile: path, first_line: fl }));
    assert(t == finish_cursor_text(run_cursor_time(cf, st.cts), sf.foffset, path, first));
}

} // verus!
