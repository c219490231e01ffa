//! The bracket syntax for input directories: `[dir1 dir2 dir3]`.

use vstd::prelude::*;

use crate::text::{split_words, trim, trimmed, views, words};

verus! {

/// Whether `t` is enclosed in square brackets.
pub open spec fn is_bracketed(t: Seq<char>) -> bool {
    t.len() >= 1 && t[0] == '[' && t.last() == ']'
}

/// What lies between the brackets of `t`.
pub open spec fn bracket_inner(t: Seq<char>) -> Seq<char> {
    if t.len() >= 2 {
        t.subrange(1, t.len() - 1)
    } else {
        seq![]
    }
}

/// Parses an input argument: a bracketed list of paths separated by white
/// space, or one path without brackets. The argument is trimmed first. An
/// empty bracketed list is an error.
pub fn parse_bracket_input(s: &str) -> (r: Result<Vec<String>, String>)
    ensures
        !is_bracketed(trimmed(s@)) ==> r is Ok && views(r->Ok_0@) == seq![trimmed(s@)],
        is_bracketed(trimmed(s@)) && words(bracket_inner(trimmed(s@))).len() > 0 ==> r is Ok
            && views(r->Ok_0@) == words(bracket_inner(trimmed(s@))),
        is_bracketed(trimmed(s@)) && words(bracket_inner(trimmed(s@))).len() == 0 ==> r is Err
            && r->Err_0@ == "Empty input list"@,
{
    let t = trim(s);
    let n = t.unicode_len();
    if n >= 1 && t.get_char(0) == '[' && t.get_char(n - 1) == ']' {
        let inner = if n >= 2 {
            t.substring_char(1, n - 1)
        } else {
            t.substring_char(0, 0)
        };
        assert(inner@ =~= bracket_inner(t@));
        let paths = split_words(inner);
        if paths.len() == 0 {
            assert(views(paths@).len() == 0);
            return Err("Empty input list".to_owned());
        }
        Ok(paths)
    } else {
        let v = vec![t.to_owned()];
        assert(views(v@) =~= seq![trimmed(s@)]);
        Ok(v)
    }
}

} // verus!
