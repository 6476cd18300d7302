//! Path arithmetic on text.
//!
//! A path is a string of components separated by `/`. Separators at the end
//! of a path carry no meaning, and `.` and `..` are not resolved: callers hand
//! in paths that the file system has already resolved.

use vstd::prelude::*;
use crate::text::{
    after_last_char, back_run_len, chars_of, is_char, not_char, push_char, push_chars,
    skip_char_back, string_of_range,
};

verus! {

/// Whether `p` starts at the root.
pub open spec fn is_absolute(p: Seq<char>) -> bool {
    p.len() > 0 && p[0] == '/'
}

/// `rel` resolved against `base`: an absolute `rel` stands for itself, any
/// other is appended to `base`, after one separator unless `base` is empty or
/// already ends with one.
pub open spec fn join(base: Seq<char>, rel: Seq<char>) -> Seq<char> {
    if is_absolute(rel) {
        rel
    } else if base.len() > 0 && base.last() != '/' {
        base + seq!['/'] + rel
    } else {
        base + rel
    }
}

/// `p` without the separators at its end.
pub open spec fn trim_sep(p: Seq<char>) -> Seq<char> {
    p.subrange(0, p.len() - back_run_len(p, is_char('/')))
}

/// Length of the last component of `p`, once the separators at its end are
/// gone.
pub open spec fn last_len(p: Seq<char>) -> nat {
    back_run_len(trim_sep(p), not_char('/'))
}

/// The last component of `p`, or `None` if `p` has no component or ends in
/// `.` or `..`.
pub open spec fn file_name(p: Seq<char>) -> Option<Seq<char>> {
    let t = trim_sep(p);
    let name = t.subrange(t.len() - last_len(p), t.len() as int);
    if name.len() == 0 || name == seq!['.'] || name == seq!['.', '.'] {
        None
    } else {
        Some(name)
    }
}

/// The path of the directory that holds the last component of `p`: `None` if
/// `p` has no component, the empty path if it has only one and is relative,
/// `/` if it has only one and is absolute.
pub open spec fn parent(p: Seq<char>) -> Option<Seq<char>> {
    let t = trim_sep(p);
    if t.len() == 0 {
        None
    } else {
        let d = t.subrange(0, t.len() - last_len(p));
        if d.len() == 0 {
            Some(Seq::empty())
        } else if trim_sep(d).len() == 0 {
            Some(seq!['/'])
        } else {
            Some(trim_sep(d))
        }
    }
}

/// Computes [`join`].
pub fn join_path(base: &str, rel: &str) -> (r: String)
    ensures
        r@ == join(base@, rel@),
{
    let b = chars_of(base);
    let c = chars_of(rel);
    let mut out = String::new();
    if c.len() > 0 && c[0] == '/' {
        push_chars(&mut out, &c);
        assert(Seq::<char>::empty() + c@ == c@);
    } else {
        push_chars(&mut out, &b);
        assert(Seq::<char>::empty() + b@ == b@);
        if b.len() > 0 && b[b.len() - 1] != '/' {
            push_char(&mut out, '/');
            assert(b@.push('/') == b@ + seq!['/']);
        }
        push_chars(&mut out, &c);
    }
    out
}

/// Computes [`file_name`].
pub fn file_name_of(p: &str) -> (r: Option<String>)
    ensures
        crate::text::opt_text(r) == file_name(p@),
{
    let v = chars_of(p);
    let end = skip_char_back(&v, '/', 0, v.len());
    let start = after_last_char(&v, '/', 0, end);
    proof {
        assert(v@.subrange(0, v.len() as int) == v@);
        assert(trim_sep(p@) == v@.subrange(0, end as int));
        assert(trim_sep(p@).subrange(start as int, end as int) == v@.subrange(
            start as int,
            end as int,
        ));
    }
    let n = end - start;
    if n == 0 || (n == 1 && v[start] == '.') || (n == 2 && v[start] == '.' && v[start + 1] == '.') {
        proof {
            let name = v@.subrange(start as int, end as int);
            if n == 1 {
                assert(name == seq!['.']);
            }
            if n == 2 {
                assert(name == seq!['.', '.']);
            }
        }
        None
    } else {
        proof {
            let name = v@.subrange(start as int, end as int);
            if name == seq!['.'] {
                assert(name[0] == '.');
            }
            if name == seq!['.', '.'] {
                assert(name[0] == '.' && name[1] == '.');
            }
        }
        Some(string_of_range(&v, start, end))
    }
}

/// Computes [`parent`].
pub fn parent_of(p: &str) -> (r: Option<String>)
    ensures
        crate::text::opt_text(r) == parent(p@),
{
    let v = chars_of(p);
    let end = skip_char_back(&v, '/', 0, v.len());
    if end == 0 {
        proof {
            assert(v@.subrange(0, v.len() as int) == v@);
        }
        return None;
    }
    let start = after_last_char(&v, '/', 0, end);
    let dir_end = skip_char_back(&v, '/', 0, start);
    proof {
        assert(v@.subrange(0, v.len() as int) == v@);
        let t = trim_sep(p@);
        assert(t == v@.subrange(0, end as int));
        let d = t.subrange(0, t.len() - last_len(p@));
        assert(d == v@.subrange(0, start as int));
        assert(trim_sep(d) == v@.subrange(0, dir_end as int));
    }
    if start == 0 {
        let r = String::new();
        Some(r)
    } else if dir_end == 0 {
        let mut r = String::new();
        push_char(&mut r, '/');
        assert(Seq::<char>::empty().push('/') == seq!['/']);
        Some(r)
    } else {
        Some(string_of_range(&v, 0, dir_end))
    }
}

} // verus!
