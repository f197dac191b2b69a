//! The order in which the log files found by the glob patterns are read: pattern by
//! pattern, and within one pattern by path, compared component by component as
//! `std::path::Path` compares them.

use vstd::prelude::*;
use vstd::string::*;
use crate::next::{keep_log_file, spec_file_name_date, spec_keep_log_file, split_fields, split_on};
use crate::text::{chars_equal, chars_of, string_of};
use crate::utils::{file_name_of, spec_file_name};

verus! {

/// `a` comes before `b` or equals it, character by character (a prefix comes first): the
/// order of `str` and, for files of one directory, of their paths.
pub open spec fn chars_le(a: Seq<char>, b: Seq<char>) -> bool
    decreases a.len(),
{
    if a.len() == 0 {
        true
    } else if b.len() == 0 {
        false
    } else if a[0] != b[0] {
        (a[0] as u32) < (b[0] as u32)
    } else {
        chars_le(a.drop_first(), b.drop_first())
    }
}

/// Whether `a` comes before `b` or equals it.
pub fn name_le(a: &Vec<char>, b: &Vec<char>) -> (r: bool)
    ensures
        r == chars_le(a@, b@),
{
    let mut i: usize = 0;
    assert(a@.skip(0) =~= a@ && b@.skip(0) =~= b@);
    while i < a.len() && i < b.len()
        invariant
            i <= a@.len(),
            i <= b@.len(),
            chars_le(a@.skip(i as int), b@.skip(i as int)) == chars_le(a@, b@),
        decreases a.len() - i,
    {
        let ghost (sa, sb) = (a@.skip(i as int), b@.skip(i as int));
        assert(sa[0] == a@[i as int] && sb[0] == b@[i as int]);
        if a[i] != b[i] {
            return (a[i] as u32) < (b[i] as u32);
        }
        assert(sa.drop_first() =~= a@.skip(i + 1));
        assert(sb.drop_first() =~= b@.skip(i + 1));
        i = i + 1;
    }
    i == a.len()
}

/// A component of a path, as `std::path::Component` tells them apart on Unix: the root,
/// a leading `.`, `..`, or a name.
pub enum PathPart {
    Root,
    Cur,
    Parent,
    Normal(Seq<char>),
}

/// The rank of a component in the order `std::path::Component` derives: the root, then
/// `.`, then `..`, then names.
pub open spec fn part_rank(p: PathPart) -> int {
    match p {
        PathPart::Root => 1,
        PathPart::Cur => 2,
        PathPart::Parent => 3,
        PathPart::Normal(_) => 4,
    }
}

/// `a` comes strictly before `b`: by rank, and names character by character.
pub open spec fn part_lt(a: PathPart, b: PathPart) -> bool {
    part_rank(a) < part_rank(b) || (a matches PathPart::Normal(x) && b matches PathPart::Normal(y) && chars_le(x, y)
        && x != y)
}

/// What one `/`-separated part of a path adds: nothing for an empty part or `.`.
pub open spec fn part_of(x: Seq<char>) -> Seq<PathPart> {
    if x.len() == 0 || x == "."@ {
        Seq::empty()
    } else if x == ".."@ {
        seq![PathPart::Parent]
    } else {
        seq![PathPart::Normal(x)]
    }
}

/// The components the `/`-separated parts give.
pub open spec fn parts_after(ps: Seq<Seq<char>>) -> Seq<PathPart>
    decreases ps.len(),
{
    if ps.len() == 0 {
        Seq::empty()
    } else {
        parts_after(ps.drop_last()) + part_of(ps.last())
    }
}

/// The components of a path, as `Path::components` gives them on Unix: the root where it
/// starts with `/`, else `.` where it starts with the part `.`, then the names and `..`
/// (empty parts and `.` elsewhere dropped).
pub open spec fn path_components(p: Seq<char>) -> Seq<PathPart> {
    let ps = split_on(p, '/');
    if p.len() > 0 && p[0] == '/' {
        seq![PathPart::Root] + parts_after(ps)
    } else if ps[0] == "."@ {
        seq![PathPart::Cur] + parts_after(ps)
    } else {
        parts_after(ps)
    }
}

/// `a` comes before `b` or has the same components, compared one by one (fewer first).
pub open spec fn parts_le(a: Seq<PathPart>, b: Seq<PathPart>) -> bool
    decreases a.len(),
{
    if a.len() == 0 {
        true
    } else if b.len() == 0 {
        false
    } else if a[0] == b[0] {
        parts_le(a.drop_first(), b.drop_first())
    } else {
        part_lt(a[0], b[0])
    }
}

/// The order of paths: `a <= b` as `Path` compares them.
pub open spec fn path_le(a: Seq<char>, b: Seq<char>) -> bool {
    parts_le(path_components(a), path_components(b))
}

/// `x` put into `s` after every element that is not greater than it, as a stable sort
/// puts it.
pub open spec fn insert_path(s: Seq<Seq<char>>, x: Seq<char>) -> Seq<Seq<char>>
    decreases s.len(),
{
    if s.len() == 0 {
        seq![x]
    } else if path_le(s.last(), x) {
        s.push(x)
    } else {
        insert_path(s.drop_last(), x).push(s.last())
    }
}

/// The paths sorted by `path_le`, stably (paths with the same components keep their
/// order), as `slice::sort` sorts `PathBuf`s.
pub open spec fn sort_paths(s: Seq<Seq<char>>) -> Seq<Seq<char>>
    decreases s.len(),
{
    if s.len() == 0 {
        Seq::empty()
    } else {
        insert_path(sort_paths(s.drop_last()), s.last())
    }
}

/// A component of a path, as computed.
pub enum Part {
    Root,
    Cur,
    Parent,
    Normal(Vec<char>),
}

impl View for Part {
    type V = PathPart;

    open spec fn view(&self) -> PathPart {
        match self {
            Part::Root => PathPart::Root,
            Part::Cur => PathPart::Cur,
            Part::Parent => PathPart::Parent,
            Part::Normal(v) => PathPart::Normal(v@),
        }
    }
}

/// Components, as models.
pub open spec fn parts_view(v: Seq<Part>) -> Seq<PathPart> {
    v.map_values(|p: Part| p@)
}

/// The components of a path.
pub fn path_parts(p: &Vec<char>) -> (r: Vec<Part>)
    ensures
        parts_view(r@) == path_components(p@),
{
    let fields = split_fields(p, '/');
    let ghost ps = split_on(p@, '/');
    proof {
        crate::next::lemma_split_on_nonempty(p@, '/');
        reveal_strlit(".");
        reveal_strlit("..");
    }
    let dot = chars_of(".");
    let dotdot = chars_of("..");
    let mut out: Vec<Part> = Vec::new();
    let ghost lead: Seq<PathPart> = if p@.len() > 0 && p@[0] == '/' {
        seq![PathPart::Root]
    } else if ps[0] == "."@ {
        seq![PathPart::Cur]
    } else {
        Seq::empty()
    };
    if p.len() > 0 && p[0] == '/' {
        out.push(Part::Root);
    } else if chars_equal(&fields[0], &dot) {
        out.push(Part::Cur);
    } else {
        proof {
            if ps[0] == "."@ {
                assert(fields@[0]@ =~= dot@);
            }
        }
    }
    assert(parts_view(out@) =~= lead);
    assert(ps.take(0) =~= Seq::<Seq<char>>::empty());
    let mut i: usize = 0;
    while i < fields.len()
        invariant
            i <= fields@.len(),
            fields@.len() == ps.len(),
            forall|k: int| 0 <= k < fields@.len() ==> #[trigger] fields@[k]@ == ps[k],
            dot@ == "."@,
            dotdot@ == ".."@,
            parts_view(out@) == lead + parts_after(ps.take(i as int)),
        decreases fields@.len() - i,
    {
        let x = &fields[i];
        assert(ps.take(i + 1).drop_last() =~= ps.take(i as int));
        assert(ps.take(i + 1).last() == x@);
        let ghost before = parts_view(out@);
        if x.len() == 0 || chars_equal(x, &dot) {
            proof {
                if x.len() != 0 {
                    assert(x@ =~= "."@);
                }
            }
            assert(part_of(x@) =~= Seq::<PathPart>::empty());
        } else if chars_equal(x, &dotdot) {
            assert(x@ =~= ".."@);
            out.push(Part::Parent);
        } else {
            proof {
                if x@ == "."@ {
                    assert(x@ =~= dot@);
                }
                if x@ == ".."@ {
                    assert(x@ =~= dotdot@);
                }
            }
            out.push(Part::Normal(x.clone()));
        }
        assert(parts_view(out@) =~= before + part_of(x@));
        assert(lead + parts_after(ps.take(i + 1)) =~= (lead + parts_after(ps.take(i as int))) + part_of(x@));
        i = i + 1;
    }
    assert(ps.take(fields@.len() as int) =~= ps);
    out
}

/// Whether the components `a` come before `b` or are the same.
pub fn parts_le_exec(a: &Vec<Part>, b: &Vec<Part>) -> (r: bool)
    ensures
        r == parts_le(parts_view(a@), parts_view(b@)),
{
    let ghost pa = parts_view(a@);
    let ghost pb = parts_view(b@);
    let mut i: usize = 0;
    assert(pa.skip(0) =~= pa && pb.skip(0) =~= pb);
    while i < a.len() && i < b.len()
        invariant
            i <= a@.len(),
            i <= b@.len(),
            pa == parts_view(a@),
            pb == parts_view(b@),
            parts_le(pa.skip(i as int), pb.skip(i as int)) == parts_le(pa, pb),
        decreases a.len() - i,
    {
        let ghost (sa, sb) = (pa.skip(i as int), pb.skip(i as int));
        assert(sa[0] == a@[i as int]@ && sb[0] == b@[i as int]@);
        assert(sa.drop_first() =~= pa.skip(i + 1));
        assert(sb.drop_first() =~= pb.skip(i + 1));
        let ra: u8 = match &a[i] {
            Part::Root => 1,
            Part::Cur => 2,
            Part::Parent => 3,
            Part::Normal(_) => 4,
        };
        let rb: u8 = match &b[i] {
            Part::Root => 1,
            Part::Cur => 2,
            Part::Parent => 3,
            Part::Normal(_) => 4,
        };
        if ra != rb {
            return ra < rb;
        }
        match (&a[i], &b[i]) {
            (Part::Normal(x), Part::Normal(y)) => {
                if !chars_equal(x, y) {
                    return name_le(x, y);
                }
            },
            _ => {},
        }
        i = i + 1;
    }
    i == a.len()
}

/// The texts of names.
pub open spec fn names_view(names: Seq<String>) -> Seq<Seq<char>> {
    names.map_values(|s: String| s@)
}

/// Putting `x` at `p` is inserting it, where everything before `p` is not greater than it
/// and everything from `p` on is greater.
proof fn lemma_insert_path_at(s: Seq<Seq<char>>, x: Seq<char>, p: int)
    requires
        0 <= p <= s.len(),
        p == 0 || path_le(s[p - 1], x),
        forall|j: int| p <= j < s.len() ==> !path_le(#[trigger] s[j], x),
    ensures
        insert_path(s, x) == s.take(p).push(x) + s.skip(p),
    decreases s.len(),
{
    if s.len() == 0 {
        assert(s.take(p).push(x) + s.skip(p) =~= seq![x]);
    } else if p == s.len() {
        assert(s.take(p).push(x) + s.skip(p) =~= s.push(x));
    } else {
        assert(!path_le(s[s.len() - 1], x));
        let t = s.drop_last();
        assert forall|j: int| p <= j < t.len() implies !path_le(#[trigger] t[j], x) by {
            assert(t[j] == s[j]);
        }
        lemma_insert_path_at(t, x, p);
        assert(s.take(p).push(x) + s.skip(p) =~= (t.take(p).push(x) + t.skip(p)).push(s.last()));
    }
}

/// The names sorted by path, stably, as `slice::sort` sorts them as `PathBuf`s.
pub fn sort_names(names: &Vec<String>) -> (r: Vec<String>)
    ensures
        names_view(r@) == sort_paths(names_view(names@)),
{
    let ghost all = names_view(names@);
    let mut keys: Vec<(Vec<Part>, String)> = Vec::new();
    let ghost mut ks: Seq<Seq<char>> = Seq::empty();
    let mut i: usize = 0;
    assert(all.take(0) =~= Seq::<Seq<char>>::empty());
    while i < names.len()
        invariant
            i <= names@.len(),
            all == names_view(names@),
            keys@.len() == ks.len(),
            forall|j: int| 0 <= j < ks.len() ==> #[trigger] keys@[j].1@ == ks[j],
            forall|j: int| 0 <= j < ks.len() ==> parts_view(#[trigger] keys@[j].0@) == path_components(ks[j]),
            ks == sort_paths(all.take(i as int)),
        decreases names@.len() - i,
    {
        let x = names[i].clone();
        let xc = chars_of(x.as_str());
        let xp = path_parts(&xc);
        let mut p: usize = keys.len();
        while p > 0 && !parts_le_exec(&keys[p - 1].0, &xp)
            invariant
                p <= keys@.len(),
                keys@.len() == ks.len(),
                forall|j: int| 0 <= j < ks.len() ==> #[trigger] keys@[j].1@ == ks[j],
                forall|j: int| 0 <= j < ks.len() ==> parts_view(#[trigger] keys@[j].0@) == path_components(ks[j]),
                parts_view(xp@) == path_components(x@),
                forall|j: int| p <= j < ks.len() ==> !path_le(#[trigger] ks[j], x@),
            decreases p,
        {
            p = p - 1;
        }
        proof {
            assert(all.take(i + 1).drop_last() =~= all.take(i as int));
            assert(all.take(i + 1).last() == x@);
            if p > 0 {
                assert(parts_view(keys@[p - 1].0@) == path_components(ks[p - 1]));
            }
            lemma_insert_path_at(ks, x@, p as int);
        }
        let ghost old_ks = ks;
        let ghost old_keys = keys@;
        keys.insert(p, (xp, x));
        proof {
            ks = old_ks.take(p as int).push(x@) + old_ks.skip(p as int);
            assert forall|j: int| 0 <= j < ks.len() implies #[trigger] keys@[j].1@ == ks[j] && parts_view(
                keys@[j].0@,
            ) == path_components(ks[j]) by {
                if j < p {
                    assert(keys@[j] == old_keys[j]);
                } else if j > p {
                    assert(keys@[j] == old_keys[j - 1]);
                }
            }
        }
        i = i + 1;
    }
    assert(all.take(names@.len() as int) =~= all);
    let mut out: Vec<String> = Vec::new();
    let mut j: usize = 0;
    while j < keys.len()
        invariant
            j <= keys@.len(),
            keys@.len() == ks.len(),
            forall|k: int| 0 <= k < ks.len() ==> #[trigger] keys@[k].1@ == ks[k],
            out@.len() == j,
            forall|k: int| 0 <= k < j ==> #[trigger] out@[k]@ == ks[k],
        decreases keys@.len() - j,
    {
        out.push(keys[j].1.clone());
        j = j + 1;
    }
    assert(names_view(out@) =~= ks);
    out
}

/// The files found by each pattern (`None` where the pattern's search failed), as texts.
pub open spec fn groups_view(groups: Seq<Option<Vec<String>>>) -> Seq<Option<Seq<Seq<char>>>> {
    groups.map_values(|g: Option<Vec<String>>| match g {
        Some(v) => Some(names_view(v@)),
        None => None,
    })
}

/// The files to read: pattern by pattern, each pattern's files in order of their paths; a
/// pattern whose search failed gives none.
pub open spec fn spec_glob_order(groups: Seq<Option<Seq<Seq<char>>>>) -> Seq<Seq<char>>
    decreases groups.len(),
{
    if groups.len() == 0 {
        Seq::empty()
    } else {
        spec_glob_order(groups.drop_last()) + match groups.last() {
            Some(g) => sort_paths(g),
            None => Seq::empty(),
        }
    }
}

/// The files to read, from what each pattern found.
pub fn glob_order(groups: &Vec<Option<Vec<String>>>) -> (r: Vec<String>)
    ensures
        names_view(r@) == spec_glob_order(groups_view(groups@)),
{
    let ghost gv = groups_view(groups@);
    let mut out: Vec<String> = Vec::new();
    let mut i: usize = 0;
    assert(gv.take(0) =~= Seq::<Option<Seq<Seq<char>>>>::empty());
    while i < groups.len()
        invariant
            i <= groups@.len(),
            gv == groups_view(groups@),
            names_view(out@) == spec_glob_order(gv.take(i as int)),
        decreases groups@.len() - i,
    {
        assert(gv.take(i + 1).drop_last() =~= gv.take(i as int));
        assert(gv.take(i + 1).last() == gv[i as int]);
        match &groups[i] {
            None => {
                assert(spec_glob_order(gv.take(i + 1)) =~= spec_glob_order(gv.take(i as int)));
            },
            Some(v) => {
                let mut sorted = sort_names(v);
                let ghost before = out@;
                let ghost added = sorted@;
                out.append(&mut sorted);
                assert(names_view(out@) =~= names_view(before) + names_view(added));
            },
        }
        i = i + 1;
    }
    assert(gv.take(groups@.len() as int) =~= gv);
    out
}


/// The files to read among those found, in order: a file whose name holds a date before
/// the cursor's day is passed over; the first file that has no name, or whose date cannot
/// be had, is an error.
pub open spec fn spec_select_files(paths: Seq<Seq<char>>, cts_day: i64) -> Result<Seq<Seq<char>>, Seq<char>>
    decreases paths.len(),
{
    if paths.len() == 0 {
        Ok(Seq::empty())
    } else {
        match spec_select_files(paths.drop_last(), cts_day) {
            Err(e) => Err(e),
            Ok(kept) => {
                let p = paths.last();
                match spec_file_name(p) {
                    None => Err("Couldn't get base name of "@ + p),
                    Some(n) => match spec_keep_log_file(n, cts_day) {
                        Err(e) => Err(e),
                        Ok(keep) => if keep {
                            Ok(kept.push(p))
                        } else {
                            Ok(kept)
                        },
                    },
                }
            },
        }
    }
}

/// The files to read among those found, in order.
pub fn select_files(paths: &Vec<String>, cts_day: i64) -> (r: Result<Vec<String>, String>)
    ensures
        match (r, spec_select_files(names_view(paths@), cts_day)) {
            (Ok(a), Ok(b)) => names_view(a@) == b,
            (Err(a), Err(b)) => a@ == b,
            _ => false,
        },
{
    let ghost all = names_view(paths@);
    let mut kept: Vec<String> = Vec::new();
    let mut i: usize = 0;
    assert(all.take(0) =~= Seq::<Seq<char>>::empty());
    assert(names_view(kept@) =~= Seq::<Seq<char>>::empty());
    while i < paths.len()
        invariant
            i <= paths@.len(),
            all == names_view(paths@),
            spec_select_files(all.take(i as int), cts_day) == Ok::<Seq<Seq<char>>, Seq<char>>(names_view(kept@)),
        decreases paths@.len() - i,
    {
        let p = &paths[i];
        assert(all.take(i + 1).drop_last() =~= all.take(i as int));
        assert(all.take(i + 1).last() == p@);
        match file_name_of(p.as_str()) {
            None => {
                let mut msg = "Couldn't get base name of ".to_owned();
                msg.append(p.as_str());
                proof { lemma_select_prefix_err(all, i as int + 1, cts_day); }
                return Err(msg);
            },
            Some(n) => match keep_log_file(n.as_str(), cts_day) {
                Err(e) => {
                    proof { lemma_select_prefix_err(all, i as int + 1, cts_day); }
                    return Err(e);
                },
                Ok(keep) => {
                    if keep {
                        let ghost before = names_view(kept@);
                        kept.push(p.clone());
                        assert(names_view(kept@) =~= before.push(p@));
                    }
                },
            },
        }
        i = i + 1;
    }
    assert(all.take(paths@.len() as int) =~= all);
    Ok(kept)
}

/// An error among the first files is the error of the whole selection.
proof fn lemma_select_prefix_err(all: Seq<Seq<char>>, n: int, cts_day: i64)
    requires
        0 <= n <= all.len(),
        spec_select_files(all.take(n), cts_day) is Err,
    ensures
        spec_select_files(all, cts_day) == spec_select_files(all.take(n), cts_day),
    decreases all.len() - n,
{
    if n < all.len() {
        assert(all.take(n + 1).drop_last() =~= all.take(n));
        lemma_select_prefix_err(all, n + 1, cts_day);
    } else {
        assert(all.take(n) =~= all);
    }
}


/// Files dated before the cursor's day are never read: leaving such a file out of those
/// found changes nothing of what is read.
pub proof fn lemma_select_skips_earlier_files(paths: Seq<Seq<char>>, cts_day: i64, i: int)
    requires
        0 <= i < paths.len(),
        spec_file_name(paths[i]) matches Some(n) && spec_file_name_date(n) matches Ok(Some(d)) && d < cts_day,
    ensures
        spec_select_files(paths.remove(i), cts_day) == spec_select_files(paths, cts_day),
    decreases paths.len(),
{
    if i == paths.len() - 1 {
        assert(paths.remove(i) =~= paths.drop_last());
    } else {
        lemma_select_skips_earlier_files(paths.drop_last(), cts_day, i);
        assert(paths.remove(i).drop_last() =~= paths.drop_last().remove(i));
        assert(paths.remove(i).last() == paths.last());
    }
}


proof fn lemma_chars_le_reflexive(a: Seq<char>)
    ensures
        chars_le(a, a),
    decreases a.len(),
{
    if a.len() > 0 {
        lemma_chars_le_reflexive(a.drop_first());
    }
}

proof fn lemma_chars_le_antisymmetric(a: Seq<char>, b: Seq<char>)
    requires
        chars_le(a, b),
        chars_le(b, a),
    ensures
        a == b,
    decreases a.len(),
{
    if a.len() > 0 && b.len() > 0 {
        if a[0] == b[0] {
            lemma_chars_le_antisymmetric(a.drop_first(), b.drop_first());
            assert(a =~= seq![a[0]] + a.drop_first());
            assert(b =~= seq![b[0]] + b.drop_first());
        }
    } else {
        assert(a =~= b);
    }
}

proof fn lemma_chars_le_transitive(a: Seq<char>, b: Seq<char>, c: Seq<char>)
    requires
        chars_le(a, b),
        chars_le(b, c),
    ensures
        chars_le(a, c),
    decreases a.len(),
{
    if a.len() > 0 && b.len() > 0 && c.len() > 0 {
        if a[0] == b[0] && b[0] == c[0] {
            lemma_chars_le_transitive(a.drop_first(), b.drop_first(), c.drop_first());
        }
    }
}

proof fn lemma_chars_le_total(a: Seq<char>, b: Seq<char>)
    ensures
        chars_le(a, b) || chars_le(b, a),
    decreases a.len(),
{
    if a.len() > 0 && b.len() > 0 {
        if a[0] == b[0] {
            lemma_chars_le_total(a.drop_first(), b.drop_first());
        } else {
            vstd::utf8::char_u32_cast(a[0], a[0] as u32);
            vstd::utf8::char_u32_cast(b[0], b[0] as u32);
        }
    }
}

proof fn lemma_part_lt_facts(a: PathPart, b: PathPart, c: PathPart)
    ensures
        a != b ==> part_lt(a, b) || part_lt(b, a),
        !(part_lt(a, b) && part_lt(b, a)),
        !part_lt(a, a),
        part_lt(a, b) && part_lt(b, c) ==> part_lt(a, c),
{
    if let (PathPart::Normal(x), PathPart::Normal(y)) = (a, b) {
        lemma_chars_le_total(x, y);
        if chars_le(x, y) && chars_le(y, x) {
            lemma_chars_le_antisymmetric(x, y);
        }
    }
    if let (PathPart::Normal(x), PathPart::Normal(y), PathPart::Normal(z)) = (a, b, c) {
        if chars_le(x, y) && chars_le(y, z) {
            lemma_chars_le_transitive(x, y, z);
            if x == z {
                lemma_chars_le_antisymmetric(x, y);
            }
        }
    }
}

proof fn lemma_parts_le_total(a: Seq<PathPart>, b: Seq<PathPart>)
    ensures
        parts_le(a, b) || parts_le(b, a),
    decreases a.len(),
{
    if a.len() > 0 && b.len() > 0 {
        if a[0] == b[0] {
            lemma_parts_le_total(a.drop_first(), b.drop_first());
        } else {
            lemma_part_lt_facts(a[0], b[0], b[0]);
        }
    }
}

proof fn lemma_parts_le_transitive(a: Seq<PathPart>, b: Seq<PathPart>, c: Seq<PathPart>)
    requires
        parts_le(a, b),
        parts_le(b, c),
    ensures
        parts_le(a, c),
    decreases a.len(),
{
    if a.len() > 0 && b.len() > 0 && c.len() > 0 {
        lemma_part_lt_facts(a[0], b[0], c[0]);
        if a[0] == b[0] && b[0] == c[0] {
            lemma_parts_le_transitive(a.drop_first(), b.drop_first(), c.drop_first());
        }
    }
}

/// The paths, in order of `path_le`.
pub open spec fn paths_sorted(s: Seq<Seq<char>>) -> bool {
    forall|i: int, j: int| 0 <= i < j < s.len() ==> path_le(#[trigger] s[i], #[trigger] s[j])
}

proof fn lemma_insert_path_sorted(s: Seq<Seq<char>>, x: Seq<char>)
    requires
        paths_sorted(s),
    ensures
        paths_sorted(insert_path(s, x)),
        insert_path(s, x).to_multiset() == s.to_multiset().insert(x),
    decreases s.len(),
{
    broadcast use vstd::seq_lib::group_to_multiset_ensures;
    if s.len() == 0 {
        assert(seq![x] =~= Seq::<Seq<char>>::empty().push(x));
    } else {
        let l = s.last();
        let t = s.drop_last();
        assert(s =~= t.push(l));
        if path_le(l, x) {
            assert forall|i: int, j: int| 0 <= i < j < s.len() + 1 implies path_le(
                #[trigger] s.push(x)[i],
                #[trigger] s.push(x)[j],
            ) by {
                if j == s.len() {
                    if i < s.len() - 1 {
                        lemma_parts_le_transitive(path_components(s[i]), path_components(l), path_components(x));
                    }
                } else {
                    assert(path_le(s[i], s[j]));
                }
            }
        } else {
            assert forall|i: int, j: int| 0 <= i < j < t.len() implies path_le(#[trigger] t[i], #[trigger] t[j]) by {
                assert(t[i] == s[i] && t[j] == s[j]);
            }
            lemma_insert_path_sorted(t, x);
            let u = insert_path(t, x);
            lemma_parts_le_total(path_components(l), path_components(x));
            assert forall|k: int| 0 <= k < u.len() implies path_le(#[trigger] u[k], l) by {
                assert(u.to_multiset().contains(u[k]));
                if u[k] != x {
                    assert(t.to_multiset().contains(u[k]));
                    assert(t.contains(u[k]));
                    let m = choose|m: int| 0 <= m < t.len() && t[m] == u[k];
                    assert(path_le(s[m], s[s.len() - 1]));
                }
            }
            assert forall|i: int, j: int| 0 <= i < j < u.len() + 1 implies path_le(
                #[trigger] u.push(l)[i],
                #[trigger] u.push(l)[j],
            ) by {
                if j == u.len() {
                    assert(path_le(u[i], l));
                } else {
                    assert(path_le(u[i], u[j]));
                }
            }
        }
    }
}

/// Sorting paths orders them by `path_le` and keeps every path, as often as it came.
pub proof fn lemma_sort_paths_sorted(s: Seq<Seq<char>>)
    ensures
        paths_sorted(sort_paths(s)),
        sort_paths(s).to_multiset() == s.to_multiset(),
    decreases s.len(),
{
    broadcast use vstd::seq_lib::group_to_multiset_ensures;
    if s.len() > 0 {
        lemma_sort_paths_sorted(s.drop_last());
        lemma_insert_path_sorted(sort_paths(s.drop_last()), s.last());
        assert(s =~= s.drop_last().push(s.last()));
    }
}

} // verus!
