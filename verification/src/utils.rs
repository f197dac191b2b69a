//! Normalizing a log file's path without touching the file system.

use vstd::prelude::*;
use vstd::string::*;
use crate::next::{split_fields, split_on};
use crate::text::{chars_equal, chars_of, string_of};

verus! {

/// The directories left after reading the path's parts in order: an empty part or `.`
/// changes nothing, `..` leaves the last directory (if any), any other part is entered.
pub open spec fn normal_stack(parts: Seq<Seq<char>>) -> Seq<Seq<char>>
    decreases parts.len(),
{
    if parts.len() == 0 {
        Seq::empty()
    } else {
        let st = normal_stack(parts.drop_last());
        let x = parts.last();
        if x.len() == 0 || x == "."@ {
            st
        } else if x == ".."@ {
            if st.len() > 0 {
                st.drop_last()
            } else {
                st
            }
        } else {
            st.push(x)
        }
    }
}

/// The directories joined after a leading `/`, each followed by `/` but the last.
pub open spec fn join_absolute(st: Seq<Seq<char>>) -> Seq<char>
    decreases st.len(),
{
    if st.len() == 0 {
        "/"@
    } else if st.len() == 1 {
        "/"@ + st[0]
    } else {
        join_absolute(st.drop_last()) + "/"@ + st.last()
    }
}

/// The absolute path that `path` names once `.` and `..` are resolved by name alone
/// (symbolic links are not followed); `..` above the root stays at the root.
pub open spec fn spec_normalize(path: Seq<char>) -> Seq<char> {
    join_absolute(normal_stack(split_on(path, '/')))
}

/// Whether a path is absolute (on Unix: it starts at the root).
pub open spec fn spec_is_absolute(path: Seq<char>) -> bool {
    path.len() > 0 && path[0] == '/'
}

/// Whether a path is absolute.
pub fn is_absolute(path: &str) -> (r: bool)
    ensures
        r == spec_is_absolute(path@),
{
    let v = chars_of(path);
    v.len() > 0 && v[0] == '/'
}

/// What `normalize_path` gives: the path itself where it is absolute, else the path
/// joined to the current directory (or the error getting that directory), normalized.
pub open spec fn spec_normalize_path(path: Seq<char>, current_dir: Option<Result<Seq<char>, Seq<char>>>) -> Result<
    Seq<char>,
    Seq<char>,
> {
    if spec_is_absolute(path) {
        Ok(spec_normalize(path))
    } else {
        match current_dir {
            Some(Ok(cwd)) => Ok(spec_normalize(cwd + "/"@ + path)),
            Some(Err(e)) => Err(e),
            None => Err(Seq::empty()),
        }
    }
}

fn normalize_chars(v: &Vec<char>) -> (r: String)
    ensures
        r@ == spec_normalize(v@),
{
    let parts = split_fields(v, '/');
    let ghost ps = split_on(v@, '/');
    let dot = chars_of(".");
    let dotdot = chars_of("..");
    let mut st: Vec<Vec<char>> = Vec::new();
    let mut i: usize = 0;
    assert(ps.take(0) =~= Seq::<Seq<char>>::empty());
    while i < parts.len()
        invariant
            i <= parts@.len(),
            parts@.len() == ps.len(),
            forall|k: int| 0 <= k < parts@.len() ==> #[trigger] parts@[k]@ == ps[k],
            dot@ == "."@,
            dotdot@ == ".."@,
            st@.len() == normal_stack(ps.take(i as int)).len(),
            forall|k: int| 0 <= k < st@.len() ==> #[trigger] st@[k]@ == normal_stack(ps.take(i as int))[k],
        decreases parts@.len() - i,
    {
        let x = &parts[i];
        assert(ps.take(i + 1).drop_last() =~= ps.take(i as int));
        assert(ps.take(i + 1).last() == x@);
        let ghost before = normal_stack(ps.take(i as int));
        if x.len() == 0 || chars_equal(x, &dot) {
            proof {
                if x.len() != 0 {
                    assert(x@ =~= "."@);
                }
            }
        } else if chars_equal(x, &dotdot) {
            assert(x@ =~= ".."@);
            if st.len() > 0 {
                st.pop();
                assert(normal_stack(ps.take(i + 1)) =~= before.drop_last());
            }
        } else {
            proof {
                if x@ == "."@ {
                    assert(x@ =~= dot@);
                }
                if x@ == ".."@ {
                    assert(x@ =~= dotdot@);
                }
            }
            st.push(x.clone());
            assert(normal_stack(ps.take(i + 1)) =~= before.push(x@));
        }
        i = i + 1;
    }
    assert(ps.take(ps.len() as int) =~= ps);
    let ghost full = normal_stack(ps);
    let mut out: Vec<char> = Vec::new();
    out.push('/');
    let mut j: usize = 0;
    proof {
        reveal_strlit("/");
    }
    while j < st.len()
        invariant
            j <= st@.len(),
            st@.len() == full.len(),
            forall|k: int| 0 <= k < st@.len() ==> #[trigger] st@[k]@ == full[k],
            j == 0 ==> out@ == seq!['/'],
            j > 0 ==> out@ == join_absolute(full.take(j as int)),
        decreases st@.len() - j,
    {
        proof { reveal_strlit("/"); }
        if j > 0 {
            out.push('/');
        }
        let mut piece = st[j].clone();
        out.append(&mut piece);
        assert(full.take(j + 1).drop_last() =~= full.take(j as int));
        proof {
            if j == 0 {
                assert(out@ =~= join_absolute(full.take(1)));
            } else {
                assert(out@ =~= join_absolute(full.take(j + 1)));
            }
        }
        j = j + 1;
    }
    proof {
        reveal_strlit("/");
        if st@.len() == 0 {
            assert(out@ =~= join_absolute(full));
        } else {
            assert(full.take(j as int) =~= full);
        }
    }
    string_of(out.as_slice())
}

/// The path normalized: an absolute path as it is, a relative one joined to the current
/// directory (`current_dir` is only needed then; its error is returned as is).
pub fn normalize_path(path: &str, current_dir: Option<Result<String, String>>) -> (r: Result<String, String>)
    requires
        !spec_is_absolute(path@) ==> current_dir is Some,
    ensures
        match (r, spec_normalize_path(path@, match current_dir {
            Some(Ok(c)) => Some(Ok(c@)),
            Some(Err(e)) => Some(Err(e@)),
            None => None,
        })) {
            (Ok(a), Ok(b)) => a@ == b,
            (Err(a), Err(b)) => a@ == b,
            _ => false,
        },
{
    if is_absolute(path) {
        let v = chars_of(path);
        Ok(normalize_chars(&v))
    } else {
        match current_dir {
            Some(Ok(cwd)) => {
                let mut joined = cwd;
                joined.append("/");
                joined.append(path);
                let v = chars_of(joined.as_str());
                Ok(normalize_chars(&v))
            },
            Some(Err(e)) => Err(e),
            None => Err(String::new()),
        }
    }
}


/// A directory name that normalizing keeps: not empty, not `.` or `..`, without `/`.
pub open spec fn kept_name(x: Seq<char>) -> bool {
    x.len() > 0 && x != "."@ && x != ".."@ && !x.contains('/')
}

proof fn lemma_split_fields_no_sep(s: Seq<char>, sep: char)
    ensures
        forall|i: int| 0 <= i < split_on(s, sep).len() ==> !(#[trigger] split_on(s, sep)[i]).contains(sep),
    decreases s.len(),
{
    if s.len() > 0 {
        lemma_split_fields_no_sep(s.drop_last(), sep);
        crate::next::lemma_split_on_nonempty(s.drop_last(), sep);
        let r = split_on(s.drop_last(), sep);
        let f = split_on(s, sep);
        if s.last() != sep {
            assert forall|i: int| 0 <= i < f.len() implies !(#[trigger] f[i]).contains(sep) by {
                if i == r.len() - 1 {
                    let x = r.last().push(s.last());
                    assert(f[i] == x);
                    if x.contains(sep) {
                        let k = choose|k: int| 0 <= k < x.len() && x[k] == sep;
                        if k < r.last().len() {
                            assert(r.last()[k] == sep);
                            assert(r.last().contains(sep));
                        }
                    }
                }
            }
        } else {
            assert forall|i: int| 0 <= i < f.len() implies !(#[trigger] f[i]).contains(sep) by {
                if i == r.len() {
                    assert(f[i] =~= Seq::<char>::empty());
                }
            }
        }
    }
}

proof fn lemma_normal_stack_kept(parts: Seq<Seq<char>>)
    requires
        forall|i: int| 0 <= i < parts.len() ==> !(#[trigger] parts[i]).contains('/'),
    ensures
        forall|i: int| 0 <= i < normal_stack(parts).len() ==> kept_name(#[trigger] normal_stack(parts)[i]),
    decreases parts.len(),
{
    if parts.len() > 0 {
        assert forall|i: int| 0 <= i < parts.drop_last().len() implies !(#[trigger] parts.drop_last()[i]).contains('/') by {
            assert(parts.drop_last()[i] == parts[i]);
        }
        lemma_normal_stack_kept(parts.drop_last());
        let st = normal_stack(parts.drop_last());
        let n = normal_stack(parts);
        assert forall|i: int| 0 <= i < n.len() implies kept_name(#[trigger] n[i]) by {
            if i < st.len() {
                assert(n[i] == st[i]);
            } else {
                assert(n[i] == parts.last());
            }
        }
    }
}

proof fn lemma_split_append_plain(a: Seq<char>, b: Seq<char>, sep: char)
    requires
        !b.contains(sep),
    ensures
        split_on(a + b, sep) == split_on(a, sep).update(
            split_on(a, sep).len() - 1,
            split_on(a, sep).last() + b,
        ),
    decreases b.len(),
{
    crate::next::lemma_split_on_nonempty(a, sep);
    let r = split_on(a, sep);
    if b.len() == 0 {
        assert(a + b =~= a);
        assert(r.last() + b =~= r.last());
        assert(r.update(r.len() - 1, r.last()) =~= r);
    } else {
        assert(!b.drop_last().contains(sep)) by {
            if b.drop_last().contains(sep) {
                let k = choose|k: int| 0 <= k < b.drop_last().len() && b.drop_last()[k] == sep;
                assert(b[k] == sep);
            }
        }
        lemma_split_append_plain(a, b.drop_last(), sep);
        assert((a + b).drop_last() =~= a + b.drop_last());
        assert((a + b).last() == b.last());
        assert(b.last() != sep) by {
            assert(b[b.len() - 1] == b.last());
        }
        let r2 = split_on(a + b.drop_last(), sep);
        assert(r2.len() == r.len());
        assert(r2.last() == r.last() + b.drop_last());
        assert((r.last() + b.drop_last()).push(b.last()) =~= r.last() + b);
        assert(split_on(a + b, sep) =~= r.update(r.len() - 1, r.last() + b));
    }
}

proof fn lemma_split_append_sep(a: Seq<char>, sep: char)
    ensures
        split_on(a + seq![sep], sep) == split_on(a, sep).push(Seq::empty()),
{
    assert((a + seq![sep]).drop_last() =~= a);
}

proof fn lemma_split_join(st: Seq<Seq<char>>)
    requires
        forall|i: int| 0 <= i < st.len() ==> kept_name(#[trigger] st[i]),
    ensures
        st.len() == 0 ==> split_on(join_absolute(st), '/') == seq![Seq::<char>::empty(), Seq::<char>::empty()],
        st.len() > 0 ==> split_on(join_absolute(st), '/') == seq![Seq::<char>::empty()] + st,
    decreases st.len(),
{
    reveal_strlit("/");
    let e = Seq::<char>::empty();
    assert(split_on(e, '/') == seq![e]);
    lemma_split_append_sep(e, '/');
    assert(e + seq!['/'] =~= "/"@);
    if st.len() == 0 {
        assert(seq![e].push(e) =~= seq![e, e]);
    } else if st.len() == 1 {
        lemma_split_append_plain("/"@, st[0], '/');
        assert(join_absolute(st) == "/"@ + st[0]);
        assert(split_on("/"@ + st[0], '/') =~= seq![e] + st);
    } else {
        let init = st.drop_last();
        assert forall|i: int| 0 <= i < init.len() implies kept_name(#[trigger] init[i]) by {
            assert(init[i] == st[i]);
        }
        lemma_split_join(init);
        let j = join_absolute(init);
        lemma_split_append_sep(j, '/');
        assert(j + "/"@ =~= j + seq!['/']);
        assert(kept_name(st.last()));
        lemma_split_append_plain(j + "/"@, st.last(), '/');
        assert(join_absolute(st) == j + "/"@ + st.last());
        assert(split_on(join_absolute(st), '/') =~= seq![e] + st);
    }
}

proof fn lemma_normal_stack_of_joined(st: Seq<Seq<char>>)
    requires
        forall|i: int| 0 <= i < st.len() ==> kept_name(#[trigger] st[i]),
    ensures
        normal_stack(seq![Seq::<char>::empty()] + st) == st,
    decreases st.len(),
{
    let e = Seq::<char>::empty();
    if st.len() == 0 {
        let one = seq![e];
        assert(one + st =~= one);
        assert(one.drop_last() =~= Seq::<Seq<char>>::empty());
        assert(normal_stack(Seq::<Seq<char>>::empty()) == Seq::<Seq<char>>::empty());
        assert(one.last().len() == 0);
        assert(normal_stack(one) == normal_stack(one.drop_last()));
    } else {
        let init = st.drop_last();
        assert forall|i: int| 0 <= i < init.len() implies kept_name(#[trigger] init[i]) by {
            assert(init[i] == st[i]);
        }
        lemma_normal_stack_of_joined(init);
        assert((seq![e] + st).drop_last() =~= seq![e] + init);
        assert((seq![e] + st).last() == st.last());
        assert(kept_name(st.last()));
        assert(init.push(st.last()) =~= st);
    }
}

/// Normalizing a normalized path changes nothing.
pub proof fn lemma_normalize_idempotent(path: Seq<char>)
    ensures
        spec_normalize(spec_normalize(path)) == spec_normalize(path),
{
    let parts = split_on(path, '/');
    lemma_split_fields_no_sep(path, '/');
    lemma_normal_stack_kept(parts);
    let st = normal_stack(parts);
    lemma_split_join(st);
    let e = Seq::<char>::empty();
    if st.len() == 0 {
        let one = seq![e];
        let two = seq![e, e];
        assert(two.drop_last() =~= one);
        assert(one.drop_last() =~= Seq::<Seq<char>>::empty());
        assert(normal_stack(Seq::<Seq<char>>::empty()) == Seq::<Seq<char>>::empty());
        assert(one.last().len() == 0);
        assert(normal_stack(one) == Seq::<Seq<char>>::empty());
        assert(two.last().len() == 0);
        assert(normal_stack(two) == normal_stack(one));
    } else {
        lemma_normal_stack_of_joined(st);
    }
}

/// A normalized path is absolute, and none of its directory names is empty, `.` or `..`.
pub proof fn lemma_normalize_shape(path: Seq<char>)
    ensures
        spec_is_absolute(spec_normalize(path)),
        forall|i: int| 0 <= i < normal_stack(split_on(path, '/')).len()
            ==> kept_name(#[trigger] normal_stack(split_on(path, '/'))[i]),
{
    lemma_split_fields_no_sep(path, '/');
    lemma_normal_stack_kept(split_on(path, '/'));
    lemma_join_absolute_starts(normal_stack(split_on(path, '/')));
}

proof fn lemma_join_absolute_starts(st: Seq<Seq<char>>)
    ensures
        join_absolute(st).len() > 0 && join_absolute(st)[0] == '/',
    decreases st.len(),
{
    reveal_strlit("/");
    if st.len() > 1 {
        lemma_join_absolute_starts(st.drop_last());
    }
}


/// The last name among the parts of a path, passing over empty parts and `.`; `None`
/// where there is none, or where it is `..`.
pub open spec fn last_name(parts: Seq<Seq<char>>) -> Option<Seq<char>>
    decreases parts.len(),
{
    if parts.len() == 0 {
        None
    } else {
        let x = parts.last();
        if x.len() == 0 || x == "."@ {
            last_name(parts.drop_last())
        } else if x == ".."@ {
            None
        } else {
            Some(x)
        }
    }
}

/// The final name of a path, as `Path::file_name` gives it.
pub open spec fn spec_file_name(path: Seq<char>) -> Option<Seq<char>> {
    last_name(split_on(path, '/'))
}

/// The final name of a path: `None` where the path ends in the root, `.` alone or `..`.
pub fn file_name_of(path: &str) -> (r: Option<String>)
    ensures
        match r {
            Some(n) => spec_file_name(path@) == Some(n@),
            None => spec_file_name(path@) is None,
        },
{
    let v = chars_of(path);
    let parts = split_fields(&v, '/');
    let ghost ps = split_on(v@, '/');
    let dot = chars_of(".");
    let dotdot = chars_of("..");
    let mut i: usize = parts.len();
    assert(ps.take(ps.len() as int) =~= ps);
    proof {
        reveal_strlit(".");
        reveal_strlit("..");
    }
    while i > 0
        invariant
            i <= parts@.len(),
            parts@.len() == ps.len(),
            forall|k: int| 0 <= k < parts@.len() ==> #[trigger] parts@[k]@ == ps[k],
            dot@ == "."@,
            dotdot@ == ".."@,
            last_name(ps.take(i as int)) == last_name(ps),
            ps == split_on(path@, '/'),
        decreases i,
    {
        let x = &parts[i - 1];
        let ghost pre = ps.take(i as int);
        assert(pre.last() == x@);
        assert(pre.drop_last() =~= ps.take(i - 1));
        if x.len() == 0 || chars_equal(x, &dot) {
            proof {
                if x.len() != 0 {
                    assert(x@ =~= "."@);
                }
            }
        } else if chars_equal(x, &dotdot) {
            assert(x@ =~= ".."@);
            return None;
        } else {
            proof {
                if x@ == "."@ {
                    assert(x@ =~= dot@);
                }
                if x@ == ".."@ {
                    assert(x@ =~= dotdot@);
                }
            }
            return Some(string_of(x.as_slice()));
        }
        i = i - 1;
    }
    assert(ps.take(0) =~= Seq::<Seq<char>>::empty());
    None
}

/// Whether the final name of a path has the extension `gz`, as `Path::extension` reads
/// it: the name ends with `.gz` after at least one other character.
pub open spec fn spec_has_gz_extension(path: Seq<char>) -> bool {
    match spec_file_name(path) {
        Some(n) => n.len() > 3 && n.subrange(n.len() - 3, n.len() as int) == ".gz"@,
        None => false,
    }
}

/// Whether a path names a gzip-compressed file (its extension is `gz`).
pub fn has_gz_extension(path: &str) -> (r: bool)
    ensures
        r == spec_has_gz_extension(path@),
{
    match file_name_of(path) {
        None => false,
        Some(n) => {
            let v = chars_of(n.as_str());
            proof {
                reveal_strlit(".gz");
            }
            let len = v.len();
            if len > 3 && v[len - 3] == '.' && v[len - 2] == 'g' && v[len - 1] == 'z' {
                assert(v@.subrange(len - 3, len as int) =~= ".gz"@);
                true
            } else {
                proof {
                    if len > 3 && v@.subrange(len - 3, len as int) == ".gz"@ {
                        assert(v@.subrange(len - 3, len as int)[0] == v@[len - 3]);
                        assert(v@.subrange(len - 3, len as int)[1] == v@[len - 2]);
                        assert(v@.subrange(len - 3, len as int)[2] == v@[len - 1]);
                    }
                }
                false
            }
        },
    }
}

} // verus!
