//! File paths are held as strings with `/` as the separator; these are the parts
//! of a path that the player reads: its final component, stem and extension,
//! and the joining of a relative path onto a directory.
use vstd::prelude::*;
use crate::text::{chars_of, string_from_range, push_range};

verus! {

/// Index of the last occurrence of `c` in `s`, or -1.
pub open spec fn last_index(s: Seq<char>, c: char) -> int
    decreases s.len(),
{
    if s.len() == 0 {
        -1
    } else if s.last() == c {
        s.len() - 1
    } else {
        last_index(s.drop_last(), c)
    }
}

pub proof fn lemma_last_index_bounds(s: Seq<char>, c: char)
    ensures
        -1 <= last_index(s, c) < s.len(),
        last_index(s, c) >= 0 ==> s[last_index(s, c)] == c,
        forall|j: int| last_index(s, c) < j < s.len() ==> s[j] != c,
    decreases s.len(),
{
    if s.len() > 0 && s.last() != c {
        let t = s.drop_last();
        lemma_last_index_bounds(t, c);
        assert forall|j: int| last_index(s, c) < j < s.len() implies s[j] != c by {
            if j < s.len() - 1 {
                assert(s[j] == t[j]);
            }
        }
    }
}

/// The last path segment that is neither empty nor `.`, if any.
pub open spec fn last_normal_segment(p: Seq<char>) -> Option<Seq<char>>
    decreases p.len(),
{
    let k = last_index(p, '/');
    let seg = p.subrange(k + 1, p.len() as int);
    if seg.len() == 0 || seg == seq!['.'] {
        if k < 0 {
            None
        } else {
            proof {
                lemma_last_index_bounds(p, '/');
            }
            last_normal_segment(p.subrange(0, k))
        }
    } else {
        Some(seg)
    }
}

/// The final component of a path, as `Path::file_name` gives it: `None` for a
/// path without one (empty, `/`, `.`) and for one that ends in `..`.
pub open spec fn file_name(p: Seq<char>) -> Option<Seq<char>> {
    match last_normal_segment(p) {
        Some(seg) => if seg == seq!['.', '.'] {
            None
        } else {
            Some(seg)
        },
        None => None,
    }
}

/// The text after the final `.` of the file name, unless that `.` starts the name.
pub open spec fn extension(p: Seq<char>) -> Option<Seq<char>> {
    match file_name(p) {
        Some(name) => {
            let dot = last_index(name, '.');
            if dot > 0 {
                Some(name.subrange(dot + 1, name.len() as int))
            } else {
                None
            }
        },
        None => None,
    }
}

/// The file name without its extension.
pub open spec fn file_stem(p: Seq<char>) -> Option<Seq<char>> {
    match file_name(p) {
        Some(name) => {
            let dot = last_index(name, '.');
            if dot > 0 {
                Some(name.subrange(0, dot))
            } else {
                Some(name)
            }
        },
        None => None,
    }
}

/// `root` joined with `rel`: an absolute `rel` replaces `root`; otherwise a
/// separator is put between them unless `root` is empty or already ends in one.
pub open spec fn joined(root: Seq<char>, rel: Seq<char>) -> Seq<char> {
    if rel.len() > 0 && rel[0] == '/' {
        rel
    } else if root.len() > 0 && root.last() != '/' {
        root + seq!['/'] + rel
    } else {
        root + rel
    }
}

/// Index of the last `c` in `cs[0..end]`.
fn last_index_in(cs: &Vec<char>, end: usize, c: char) -> (r: Option<usize>)
    requires
        end <= cs.len(),
    ensures
        match r {
            Some(k) => k as int == last_index(cs@.take(end as int), c) && k < end,
            None => last_index(cs@.take(end as int), c) == -1,
        },
{
    let mut i = end;
    while i > 0
        invariant
            i <= end <= cs.len(),
            last_index(cs@.take(end as int), c) == last_index(cs@.take(i as int), c),
        decreases i,
    {
        assert(cs@.take(i as int).drop_last() =~= cs@.take(i - 1));
        if cs[i - 1] == c {
            return Some(i - 1);
        }
        i -= 1;
    }
    None
}

/// Bounds `[start, end)` of the file name within `cs`, if the path has one.
fn file_name_range(cs: &Vec<char>) -> (r: Option<(usize, usize)>)
    ensures
        match r {
            Some((start, end)) => start <= end <= cs.len() && file_name(cs@) == Some(
                cs@.subrange(start as int, end as int),
            ),
            None => file_name(cs@) is None,
        },
{
    let mut end = cs.len();
    assert(cs@.take(end as int) =~= cs@);
    loop
        invariant
            end <= cs.len(),
            last_normal_segment(cs@) == last_normal_segment(cs@.take(end as int)),
        decreases end,
    {
        let k = last_index_in(cs, end, '/');
        let ghost p = cs@.take(end as int);
        proof {
            lemma_last_index_bounds(p, '/');
        }
        let start = match k {
            Some(k) => k + 1,
            None => 0,
        };
        assert(p.subrange(last_index(p, '/') + 1, p.len() as int) =~= cs@.subrange(
            start as int,
            end as int,
        ));
        let seg_len = end - start;
        let is_dot = seg_len == 1 && cs[start] == '.';
        if seg_len == 0 || is_dot {
            proof {
                if is_dot {
                    assert(cs@.subrange(start as int, end as int) =~= seq!['.']);
                } else {
                    assert(cs@.subrange(start as int, end as int).len() == 0);
                }
            }
            match k {
                None => {
                    return None;
                },
                Some(k) => {
                    assert(p.subrange(0, k as int) =~= cs@.take(k as int));
                    end = k;
                },
            }
        } else {
            proof {
                if cs@.subrange(start as int, end as int) == seq!['.'] {
                    assert(cs@.subrange(start as int, end as int)[0] == cs@[start as int]);
                }
            }
            let is_parent = seg_len == 2 && cs[start] == '.' && cs[start + 1] == '.';
            proof {
                let seg = cs@.subrange(start as int, end as int);
                if is_parent {
                    assert(seg =~= seq!['.', '.']);
                } else if seg == seq!['.', '.'] {
                    assert(seg[0] == cs@[start as int] && seg[1] == cs@[start + 1]);
                }
            }
            if is_parent {
                return None;
            }
            return Some((start, end));
        }
    }
}

/// The final component of `path` (see `file_name`).
pub fn path_file_name(path: &str) -> (r: Option<String>)
    ensures
        match r {
            Some(s) => file_name(path@) == Some(s@),
            None => file_name(path@) is None,
        },
{
    let cs = chars_of(path);
    match file_name_range(&cs) {
        Some((start, end)) => Some(string_from_range(&cs, start, end)),
        None => None,
    }
}

/// Splits the file name `cs[start..end]` at its final `.` when that `.` is not its first character.
fn split_at_last_dot(cs: &Vec<char>, start: usize, end: usize) -> (r: Option<usize>)
    requires
        start <= end <= cs.len(),
    ensures
        ({
            let name = cs@.subrange(start as int, end as int);
            let dot = last_index(name, '.');
            match r {
                Some(d) => dot > 0 && d == start + dot && start < d < end,
                None => dot <= 0,
            }
        }),
{
    let ghost name = cs@.subrange(start as int, end as int);
    let mut i = end;
    while i > start
        invariant
            start <= i <= end <= cs.len(),
            name == cs@.subrange(start as int, end as int),
            last_index(name, '.') == last_index(cs@.subrange(start as int, i as int), '.'),
        decreases i,
    {
        assert(cs@.subrange(start as int, i as int).drop_last() =~= cs@.subrange(
            start as int,
            i - 1,
        ));
        if cs[i - 1] == '.' {
            if i - 1 > start {
                return Some(i - 1);
            } else {
                return None;
            }
        }
        i -= 1;
    }
    None
}

/// The extension of `path` (see `extension`).
pub fn path_extension(path: &str) -> (r: Option<String>)
    ensures
        match r {
            Some(s) => extension(path@) == Some(s@),
            None => extension(path@) is None,
        },
{
    let cs = chars_of(path);
    match file_name_range(&cs) {
        Some((start, end)) => {
            match split_at_last_dot(&cs, start, end) {
                Some(d) => {
                    let ghost name = cs@.subrange(start as int, end as int);
                    assert(name.subrange(last_index(name, '.') + 1, name.len() as int)
                        =~= cs@.subrange(d + 1, end as int));
                    Some(string_from_range(&cs, d + 1, end))
                },
                None => None,
            }
        },
        None => None,
    }
}

/// The stem of `path` (see `file_stem`).
pub fn path_file_stem(path: &str) -> (r: Option<String>)
    ensures
        match r {
            Some(s) => file_stem(path@) == Some(s@),
            None => file_stem(path@) is None,
        },
{
    let cs = chars_of(path);
    match file_name_range(&cs) {
        Some((start, end)) => {
            match split_at_last_dot(&cs, start, end) {
                Some(d) => {
                    let ghost name = cs@.subrange(start as int, end as int);
                    assert(name.subrange(0, last_index(name, '.')) =~= cs@.subrange(
                        start as int,
                        d as int,
                    ));
                    Some(string_from_range(&cs, start, d))
                },
                None => Some(string_from_range(&cs, start, end)),
            }
        },
        None => None,
    }
}

/// `root` joined with `rel` (see `joined`).
pub fn join_path(root: &str, rel: &str) -> (r: String)
    ensures
        r@ == joined(root@, rel@),
{
    let rc = chars_of(root);
    let pc = chars_of(rel);
    let mut out = String::new();
    if pc.len() > 0 && pc[0] == '/' {
        push_range(&mut out, &pc, 0, pc.len());
        assert(out@ =~= rel@);
        return out;
    }
    push_range(&mut out, &rc, 0, rc.len());
    if rc.len() > 0 && rc[rc.len() - 1] != '/' {
        crate::text::push_char(&mut out, '/');
    }
    push_range(&mut out, &pc, 0, pc.len());
    assert(out@ =~= joined(root@, rel@));
    out
}

} // verus!
