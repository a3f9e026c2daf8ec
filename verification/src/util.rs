//! Small string and path utilities shared by the Git layer and the cache
//! engine.

use vstd::prelude::*;

use crate::pattern::find_char;
use crate::pattern::find_char_in;
use crate::pattern::lemma_find_char;

verus! {

/// The views of a sequence of strings.
pub open spec fn views_of(l: Seq<String>) -> Seq<Seq<char>> {
    l.map_values(|x: String| x@)
}

/// A copy of a list of strings.
pub fn clone_strings(l: &Vec<String>) -> (r: Vec<String>)
    ensures
        r@ == l@,
{
    let n = l.len();
    let mut r = Vec::<String>::new();
    let mut i: usize = 0;
    while i < n
        invariant
            0 <= i <= n,
            n == l@.len(),
            r@.len() == i,
            forall|j: int| 0 <= j < i ==> r@[j] == l@[j],
        decreases n - i,
    {
        r.push(l[i].clone());
        i = i + 1;
    }
    proof {
        assert(r@ =~= l@);
    }
    r
}

/// Joining `sub` onto `base` as paths: an absolute `sub` stands alone, an
/// empty `sub` leaves `base` alone, and otherwise exactly one `/` separates
/// the two.
pub open spec fn join_path_spec(base: Seq<char>, sub: Seq<char>) -> Seq<char> {
    if sub.len() > 0 && sub[0] == '/' {
        sub
    } else if sub.len() == 0 {
        base
    } else if base.len() == 0 {
        sub
    } else if base.last() == '/' {
        base + sub
    } else {
        base + seq!['/'] + sub
    }
}

/// Join `sub` onto `base` as paths.
pub fn join_path(base: &str, sub: &str) -> (r: String)
    ensures
        r@ == join_path_spec(base@, sub@),
{
    let sub_len = sub.unicode_len();
    if sub_len > 0 && sub.get_char(0) == '/' {
        return String::from_str(sub);
    }
    if sub_len == 0 {
        return String::from_str(base);
    }
    let base_len = base.unicode_len();
    if base_len == 0 {
        return String::from_str(sub);
    }
    if base.get_char(base_len - 1) == '/' {
        return String::from_str(base).concat(sub);
    }
    let r = String::from_str(base).concat("/").concat(sub);
    proof {
        reveal_strlit("/");
        assert(r@ =~= base@ + seq!['/'] + sub@);
    }
    r
}

/// `s` without one trailing carriage return, if present.
pub open spec fn strip_cr(s: Seq<char>) -> Seq<char> {
    if s.len() > 0 && s.last() == '\r' {
        s.drop_last()
    } else {
        s
    }
}

/// Remove one trailing carriage return from `s`, if present.
pub fn strip_cr_of(s: &str) -> (r: String)
    ensures
        r@ == strip_cr(s@),
{
    let n = s.unicode_len();
    if n > 0 && s.get_char(n - 1) == '\r' {
        let t = s.substring_char(0, n - 1);
        let r = String::from_str(t);
        assert(r@ =~= strip_cr(s@));
        r
    } else {
        String::from_str(s)
    }
}

/// The lines of `s`, in the manner of `str::lines`: split at every `'\n'`,
/// each line without a trailing `'\r'`, and no empty line after a final
/// newline.  The input is expected to carry no final newline (command output
/// is trimmed first); one present yields a final empty line.
pub open spec fn split_lines_spec(s: Seq<char>) -> Seq<Seq<char>>
    decreases s.len(),
    via split_lines_spec_decreases
{
    if s.len() == 0 {
        Seq::empty()
    } else {
        match find_char(s, '\n') {
            None => seq![strip_cr(s)],
            Some(k) => seq![strip_cr(s.take(k))] + split_lines_spec(s.skip(k + 1)),
        }
    }
}

#[via_fn]
proof fn split_lines_spec_decreases(s: Seq<char>) {
    if s.len() != 0 {
        lemma_find_char(s, '\n');
    }
}

/// Split `s` into its lines.
pub fn split_lines(s: &str) -> (r: Vec<String>)
    ensures
        views_of(r@) == split_lines_spec(s@),
    decreases s@.len(),
{
    let n = s.unicode_len();
    if n == 0 {
        let r = Vec::<String>::new();
        proof {
            assert(views_of(r@) =~= split_lines_spec(s@));
        }
        return r;
    }
    match find_char_in(s, '\n') {
        None => {
            let line = strip_cr_of(s);
            let mut r = Vec::<String>::new();
            r.push(line);
            proof {
                assert(views_of(r@) =~= split_lines_spec(s@));
            }
            r
        },
        Some(k) => {
            proof {
                lemma_find_char(s@, '\n');
            }
            let head_str = s.substring_char(0, k);
            let head = strip_cr_of(head_str);
            let rest = s.substring_char(k + 1, n);
            let mut r = split_lines(rest);
            r.insert(0, head);
            proof {
                assert(s@.take(k as int) =~= head_str@);
                assert(views_of(r@) =~= split_lines_spec(s@));
            }
            r
        },
    }
}

/// The result of stripping one trailing newline from `s`: a final `"\r\n"` or
/// `"\n"` is removed, anything else is left untouched.
pub open spec fn trim_newline_spec(s: Seq<char>) -> Seq<char> {
    if s.len() >= 2 && s[s.len() - 1] == '\n' && s[s.len() - 2] == '\r' {
        s.take(s.len() - 2)
    } else if s.len() >= 1 && s[s.len() - 1] == '\n' {
        s.take(s.len() - 1)
    } else {
        s
    }
}

/// Remove one trailing newline (`"\n"` or `"\r\n"`) from `s`, if present.
pub fn trim_newline(s: String) -> (r: String)
    ensures
        r@ == trim_newline_spec(s@),
{
    let n = s.as_str().unicode_len();
    if n == 0 {
        return s;
    }
    let last = s.as_str().get_char(n - 1);
    if last != '\n' {
        return s;
    }
    if n >= 2 {
        let second_last = s.as_str().get_char(n - 2);
        if second_last == '\r' {
            let t = s.as_str().substring_char(0, n - 2);
            let r = String::from_str(t);
            assert(r@ =~= trim_newline_spec(s@));
            return r;
        }
    }
    let t = s.as_str().substring_char(0, n - 1);
    let r = String::from_str(t);
    assert(r@ =~= trim_newline_spec(s@));
    r
}

} // verus!
