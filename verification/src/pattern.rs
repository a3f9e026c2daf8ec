//! The `%` placeholder grammar of pattern artifacts.
//!
//! An artifact name containing exactly one `%` is a pattern: the `%` stands
//! for one or more word characters (letters, digits, underscore).  A requested
//! name matches the pattern when it consists of the pattern's literal prefix,
//! a non-empty run of word characters, and the pattern's literal suffix.  The
//! captured run is substituted for the first `%` of each input and output path.

use vstd::prelude::*;

verus! {

/// A word character: ASCII letter, digit or underscore.
pub open spec fn is_word_char(c: char) -> bool {
    ('a' <= c && c <= 'z') || ('A' <= c && c <= 'Z') || ('0' <= c && c <= '9') || c == '_'
}

/// How many times `c` occurs in `s`.
pub open spec fn count_char(s: Seq<char>, c: char) -> nat
    decreases s.len(),
{
    if s.len() == 0 {
        0
    } else {
        count_char(s.drop_last(), c) + if s.last() == c {
            1nat
        } else {
            0nat
        }
    }
}

/// The index of the first occurrence of `c` in `s`, if any.
pub open spec fn find_char(s: Seq<char>, c: char) -> Option<int>
    decreases s.len(),
{
    if s.len() == 0 {
        None
    } else if s[0] == c {
        Some(0)
    } else {
        match find_char(s.drop_first(), c) {
            None => None,
            Some(i) => Some(i + 1),
        }
    }
}

/// `find_char` returns the first occurrence: the index holds `c` and nothing
/// before it does; `None` means `c` does not occur at all.
pub proof fn lemma_find_char(s: Seq<char>, c: char)
    ensures
        match find_char(s, c) {
            Some(i) => 0 <= i < s.len() && s[i] == c && (forall|j: int| 0 <= j < i ==> s[j] != c),
            None => forall|j: int| 0 <= j < s.len() ==> s[j] != c,
        },
    decreases s.len(),
{
    if s.len() == 0 {
    } else if s[0] == c {
    } else {
        let t = s.drop_first();
        lemma_find_char(t, c);
        assert(forall|j: int| 0 <= j < t.len() ==> t[j] == s[j + 1]);
        match find_char(t, c) {
            None => {
                assert forall|j: int| 0 <= j < s.len() implies s[j] != c by {
                    if j > 0 {
                        assert(t[j - 1] == s[j]);
                    }
                }
            },
            Some(i) => {
                assert(t[i] == s[i + 1]);
                assert forall|j: int| 0 <= j < i + 1 implies s[j] != c by {
                    if j > 0 {
                        assert(t[j - 1] == s[j]);
                    }
                }
            },
        }
    }
}

/// Find the first occurrence of `c` in `s`.
pub fn find_char_in(s: &str, c: char) -> (r: Option<usize>)
    ensures
        match r {
            Some(i) => find_char(s@, c) == Some(i as int),
            None => find_char(s@, c) is None,
        },
{
    proof {
        lemma_find_char(s@, c);
    }
    let n = s.unicode_len();
    let mut i: usize = 0;
    while i < n
        invariant
            0 <= i <= n,
            n == s@.len(),
            forall|j: int| 0 <= j < i ==> s@[j] != c,
        decreases n - i,
    {
        if s.get_char(i) == c {
            proof {
                lemma_find_char(s@, c);
            }
            return Some(i);
        }
        i = i + 1;
    }
    proof {
        lemma_find_char(s@, c);
    }
    None
}

/// Count the occurrences of `c` in `s`.
pub fn count_char_in(s: &str, c: char) -> (r: usize)
    ensures
        r == count_char(s@, c),
{
    let n = s.unicode_len();
    let mut i: usize = 0;
    let mut count: usize = 0;
    proof {
        assert(s@.take(0) =~= Seq::<char>::empty());
    }
    while i < n
        invariant
            0 <= i <= n,
            n == s@.len(),
            count == count_char(s@.take(i as int), c),
            count <= i,
        decreases n - i,
    {
        proof {
            assert(s@.take(i + 1).drop_last() =~= s@.take(i as int));
            assert(s@.take(i + 1).last() == s@[i as int]);
        }
        if s.get_char(i) == c {
            count = count + 1;
        }
        i = i + 1;
    }
    proof {
        assert(s@.take(n as int) =~= s@);
    }
    count
}

/// What the pattern `pat` captures from `name`, if `name` matches: `name`
/// must be `pat`'s literal prefix before the first `%`, then one or more word
/// characters (the capture), then `pat`'s literal suffix after the `%`.
pub open spec fn pattern_capture(pat: Seq<char>, name: Seq<char>) -> Option<Seq<char>> {
    match find_char(pat, '%') {
        None => None,
        Some(k) => {
            let pre = pat.take(k);
            let suf = pat.skip(k + 1);
            if name.len() >= pre.len() + suf.len() + 1 && name.take(k) == pre && name.skip(
                name.len() - suf.len(),
            ) == suf && (forall|j: int|
                k <= j < name.len() - suf.len() ==> is_word_char(name[j])) {
                Some(name.subrange(k, name.len() - suf.len()))
            } else {
                None
            }
        },
    }
}

/// Match `name` against the pattern `pat`, returning the captured substring.
#[verifier::loop_isolation(false)]
pub fn match_pattern(pat: &str, name: &str) -> (r: Option<String>)
    ensures
        match r {
            Some(s) => pattern_capture(pat@, name@) == Some(s@),
            None => pattern_capture(pat@, name@) is None,
        },
{
    let k = match find_char_in(pat, '%') {
        None => {
            return None;
        },
        Some(k) => k,
    };
    proof {
        lemma_find_char(pat@, '%');
    }
    let pat_len = pat.unicode_len();
    let name_len = name.unicode_len();
    let pre_len = k;
    let suf_len = pat_len - k - 1;
    if name_len < pre_len + suf_len || name_len == pre_len + suf_len {
        return None;
    }
    // Literal prefix of the pattern must open the name.
    let mut i: usize = 0;
    while i < pre_len
        invariant
            0 <= i <= pre_len,
            pre_len == k < pat_len == pat@.len(),
            name_len == name@.len(),
            name_len > pre_len + suf_len,
            suf_len == pat_len - k - 1,
            forall|j: int| 0 <= j < i ==> name@[j] == pat@[j],
        decreases pre_len - i,
    {
        if name.get_char(i) != pat.get_char(i) {
            proof {
                assert(name@.take(k as int)[i as int] != pat@.take(k as int)[i as int]);
            }
            return None;
        }
        i = i + 1;
    }
    proof {
        assert(name@.take(k as int) =~= pat@.take(k as int));
    }
    // Literal suffix of the pattern must close the name.
    let name_tail = name_len - suf_len;
    let mut i: usize = 0;
    while i < suf_len
        invariant
            0 <= i <= suf_len,
            pre_len == k < pat_len == pat@.len(),
            name_len == name@.len(),
            name_len > pre_len + suf_len,
            suf_len == pat_len - k - 1,
            name_tail == name_len - suf_len,
            forall|j: int| 0 <= j < i ==> name@[name_tail + j] == #[trigger] pat@[k + 1 + j],
        decreases suf_len - i,
    {
        if name.get_char(name_tail + i) != pat.get_char(k + 1 + i) {
            proof {
                assert(name@.skip(name_tail as int)[i as int] != pat@.skip(k + 1)[i as int]);
            }
            return None;
        }
        i = i + 1;
    }
    proof {
        assert forall|j: int| 0 <= j < suf_len implies name@.skip(name_tail as int)[j] == pat@.skip(
            k + 1,
        )[j] by {
            assert(name@[name_tail + j] == pat@[k + 1 + j]);
        }
        assert(name@.skip(name_tail as int) =~= pat@.skip(k + 1));
    }
    // The capture must be word characters throughout.
    let mut i: usize = pre_len;
    while i < name_tail
        invariant
            pre_len <= i <= name_tail,
            name_len == name@.len(),
            name_tail == name_len - suf_len,
            name_tail <= name_len,
            forall|j: int| pre_len <= j < i ==> is_word_char(name@[j]),
        decreases name_tail - i,
    {
        let c = name.get_char(i);
        let word = ('a' <= c && c <= 'z') || ('A' <= c && c <= 'Z') || ('0' <= c && c <= '9') || c
            == '_';
        if !word {
            return None;
        }
        i = i + 1;
    }
    let cap = name.substring_char(pre_len, name_tail);
    let r = String::from_str(cap);
    proof {
        assert(name@.subrange(k as int, name_tail as int) =~= r@);
    }
    Some(r)
}

/// A string without occurrences of `c` holds `c` nowhere.
pub proof fn lemma_count_zero(s: Seq<char>, c: char)
    requires
        count_char(s, c) == 0,
    ensures
        forall|j: int| 0 <= j < s.len() ==> s[j] != c,
    decreases s.len(),
{
    if s.len() > 0 {
        lemma_count_zero(s.drop_last(), c);
        assert forall|j: int| 0 <= j < s.len() implies s[j] != c by {
            if j < s.len() - 1 {
                assert(s.drop_last()[j] == s[j]);
            }
        }
    }
}

/// `path` with its first `%`, if any, replaced by `actual`; a path without a
/// `%` is returned unchanged.
pub open spec fn subst_first_spec(path: Seq<char>, actual: Seq<char>) -> Seq<char> {
    match find_char(path, '%') {
        None => path,
        Some(k) => path.take(k) + actual + path.skip(k + 1),
    }
}

/// Replace the first `%` in `path` by `actual`.
pub fn subst_first(path: &str, actual: &str) -> (r: String)
    ensures
        r@ == subst_first_spec(path@, actual@),
{
    match find_char_in(path, '%') {
        None => String::from_str(path),
        Some(k) => {
            proof {
                lemma_find_char(path@, '%');
            }
            let n = path.unicode_len();
            let pre = path.substring_char(0, k);
            let post = path.substring_char(k + 1, n);
            let r = String::from_str(pre).concat(actual).concat(post);
            proof {
                assert(r@ =~= subst_first_spec(path@, actual@));
            }
            r
        },
    }
}

} // verus!
