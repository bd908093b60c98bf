//! Path-string utilities. The library works on Unix-style path strings with
//! `/` as the separator; it does no normalization of `.` or `..` segments
//! beyond refusing them as file names.

use vstd::prelude::*;
use vstd::string::StrSliceExecFns;
use vstd::string::StringExecFns;
use crate::error::SkError;

verus! {

/// `p` with every trailing `/` removed.
pub open spec fn strip_trailing_slashes(p: Seq<char>) -> Seq<char>
    decreases p.len(),
{
    if p.len() > 0 && p.last() == '/' {
        strip_trailing_slashes(p.drop_last())
    } else {
        p
    }
}

/// The characters of `p` after its last `/`; all of `p` when it holds none.
pub open spec fn after_last_slash(p: Seq<char>) -> Seq<char>
    decreases p.len(),
{
    if p.len() == 0 {
        p
    } else if p.last() == '/' {
        Seq::empty()
    } else {
        after_last_slash(p.drop_last()).push(p.last())
    }
}

/// The file name of a path: the last segment once trailing separators are
/// dropped. A path with nothing left, or whose last segment is `.` or `..`,
/// has no file name.
pub open spec fn filename_of(p: Seq<char>) -> Option<Seq<char>> {
    let seg = after_last_slash(strip_trailing_slashes(p));
    if seg.len() == 0 || seg == seq!['.'] || seg == seq!['.', '.'] {
        None
    } else {
        Some(seg)
    }
}

proof fn lemma_after_last_slash_skip(t: Seq<char>, k: int)
    requires
        0 <= k <= t.len(),
        forall|j: int| k <= j < t.len() ==> t[j] != '/',
        k == 0 || t[k - 1] == '/',
    ensures
        after_last_slash(t) == t.skip(k),
    decreases t.len(),
{
    if t.len() == 0 {
        assert(after_last_slash(t) =~= t.skip(0));
    } else if t.last() == '/' {
        assert(k == t.len());
        assert(after_last_slash(t) =~= t.skip(k));
    } else {
        assert(k < t.len());
        lemma_after_last_slash_skip(t.drop_last(), k);
        assert(after_last_slash(t) =~= t.skip(k)) by {
            assert(t.drop_last().skip(k).push(t.last()) =~= t.skip(k));
        }
    }
}

/// The file name of `path`, or `InvalidInput` when the path has none.
pub fn path_buf_filename(path: &str) -> (r: Result<String, SkError>)
    ensures
        match filename_of(path@) {
            Some(f) => r matches Ok(s) && s@ == f,
            None => r matches Err(e) && e == SkError::InvalidInput,
        },
{
    let n = path.unicode_len();
    let mut end: usize = n;
    proof {
        assert(path@.take(n as int) =~= path@);
    }
    while end > 0 && path.get_char(end - 1) == '/'
        invariant
            end <= n,
            n == path@.len(),
            strip_trailing_slashes(path@) == strip_trailing_slashes(path@.take(end as int)),
        decreases end,
    {
        proof {
            assert(path@.take(end as int).drop_last() =~= path@.take(end - 1));
        }
        end -= 1;
    }
    let ghost t = path@.take(end as int);
    proof {
        assert(strip_trailing_slashes(t) == t);
    }
    let mut start: usize = end;
    while start > 0 && path.get_char(start - 1) != '/'
        invariant
            start <= end <= n,
            n == path@.len(),
            forall|j: int| start <= j < end ==> path@[j] != '/',
        decreases start,
    {
        start -= 1;
    }
    proof {
        assert forall|j: int| start <= j < t.len() implies t[j] != '/' by {}
        lemma_after_last_slash_skip(t, start as int);
        assert(t.skip(start as int) =~= path@.subrange(start as int, end as int));
    }
    let seg = path.substring_char(start, end);
    let len = end - start;
    if len == 0 {
        return Err(SkError::InvalidInput);
    }
    if len == 1 && seg.get_char(0) == '.' {
        proof {
            assert(seg@ =~= seq!['.']);
        }
        return Err(SkError::InvalidInput);
    }
    if len == 2 && seg.get_char(0) == '.' && seg.get_char(1) == '.' {
        proof {
            assert(seg@ =~= seq!['.', '.']);
        }
        return Err(SkError::InvalidInput);
    }
    proof {
        if seg@ == seq!['.'] {
            assert(seg@.len() == 1);
        }
        if seg@ == seq!['.', '.'] {
            assert(seg@.len() == 2);
        }
    }
    Ok(String::from_str(seg))
}

/// The POSIX executable test on a permission mode: any of the owner, group
/// or other execute bits is set. On platforms without such bits a caller
/// passes 0, and no file counts as executable.
pub fn is_executable_mode(mode: u32) -> (r: bool)
    ensures
        r == ((mode & 0o111) != 0),
{
    mode & 0o111 != 0
}

/// A sequence of path components joined with `/`.
pub open spec fn joined_path(parts: Seq<Seq<char>>) -> Seq<char>
    decreases parts.len(),
{
    if parts.len() == 0 {
        Seq::empty()
    } else if parts.len() == 1 {
        parts[0]
    } else {
        joined_path(parts.drop_last()) + seq!['/'] + parts.last()
    }
}

/// Render a path given by its components as one string, components joined
/// with `/`.
pub fn path_buf_to_string(parts: &Vec<String>) -> (r: String)
    ensures
        r@ == joined_path(parts@.map_values(|s: String| s@)),
{
    let ghost ps = parts@.map_values(|s: String| s@);
    let mut out = String::new();
    let mut i: usize = 0;
    proof {
        assert(ps.take(0) =~= Seq::empty());
        assert(out@ =~= joined_path(ps.take(0)));
    }
    while i < parts.len()
        invariant
            i <= parts.len(),
            ps == parts@.map_values(|s: String| s@),
            ps.len() == parts@.len(),
            out@ == joined_path(ps.take(i as int)),
        decreases parts.len() - i,
    {
        if i > 0 {
            out.append("/");
        }
        out.append(parts[i].as_str());
        proof {
            reveal_strlit("/");
            assert(ps.take(i + 1).drop_last() =~= ps.take(i as int));
            assert(ps.take(i + 1).last() == ps[i as int]);
            if i == 0 {
                assert(out@ =~= joined_path(ps.take(1)));
            } else {
                assert("/"@ =~= seq!['/']);
                assert(out@ =~= joined_path(ps.take(i + 1)));
            }
        }
        i += 1;
    }
    proof {
        assert(ps.take(parts@.len() as int) =~= ps);
    }
    out
}

} // verus!
