//! Relative paths as forward-slash-separated strings.
//!
//! Every file and directory in this crate is identified by such a path,
//! independent of whether its contents are embedded or read from disk.
//! This module holds the string logic the rest of the crate is specified
//! against: joining, prefix tests, file names and extensions.

use vstd::prelude::*;

verus! {

/// Index of the last occurrence of `c` in `s`, or `-1` when absent.
pub open spec fn last_index_of(s: Seq<char>, c: char) -> int
    decreases s.len(),
{
    if s.len() == 0 {
        -1
    } else if s.last() == c {
        s.len() - 1
    } else {
        last_index_of(s.drop_last(), c)
    }
}

/// Index of the first occurrence of `c` in `s`, or `-1` when absent.
pub open spec fn first_index_of(s: Seq<char>, c: char) -> int
    decreases s.len(),
{
    if s.len() == 0 {
        -1
    } else if s[0] == c {
        0
    } else if first_index_of(s.skip(1), c) < 0 {
        -1
    } else {
        first_index_of(s.skip(1), c) + 1
    }
}

pub proof fn lemma_last_index_of(s: Seq<char>, c: char)
    ensures
        -1 <= last_index_of(s, c) < s.len(),
        last_index_of(s, c) >= 0 ==> s[last_index_of(s, c)] == c,
        forall|j: int| last_index_of(s, c) < j < s.len() ==> s[j] != c,
    decreases s.len(),
{
    if s.len() > 0 && s.last() != c {
        lemma_last_index_of(s.drop_last(), c);
        assert forall|j: int| last_index_of(s, c) < j < s.len() implies s[j] != c by {
            if j < s.len() - 1 {
                assert(s.drop_last()[j] == s[j]);
            }
        }
    }
}

pub proof fn lemma_last_index_of_unique(s: Seq<char>, c: char, i: int)
    requires
        -1 <= i < s.len(),
        i >= 0 ==> s[i] == c,
        forall|j: int| i < j < s.len() ==> s[j] != c,
    ensures
        last_index_of(s, c) == i,
    decreases s.len(),
{
    if s.len() > 0 && s.last() != c {
        assert forall|j: int| i < j < s.drop_last().len() implies s.drop_last()[j] != c by {
            assert(s.drop_last()[j] == s[j]);
        }
        lemma_last_index_of_unique(s.drop_last(), c, i);
    }
}

pub proof fn lemma_first_index_of(s: Seq<char>, c: char)
    ensures
        -1 <= first_index_of(s, c) < s.len(),
        first_index_of(s, c) >= 0 ==> s[first_index_of(s, c)] == c,
        forall|j: int| 0 <= j < first_index_of(s, c) ==> s[j] != c,
        first_index_of(s, c) == -1 ==> forall|j: int| 0 <= j < s.len() ==> s[j] != c,
    decreases s.len(),
{
    if s.len() > 0 && s[0] != c {
        lemma_first_index_of(s.skip(1), c);
        assert forall|j: int| 0 <= j < first_index_of(s, c) implies s[j] != c by {
            if j > 0 {
                assert(s.skip(1)[j - 1] == s[j]);
            }
        }
        if first_index_of(s, c) == -1 {
            assert forall|j: int| 0 <= j < s.len() implies s[j] != c by {
                if j > 0 {
                    assert(s.skip(1)[j - 1] == s[j]);
                }
            }
        }
    }
}

pub proof fn lemma_first_index_of_unique(s: Seq<char>, c: char, i: int)
    requires
        0 <= i < s.len(),
        s[i] == c,
        forall|j: int| 0 <= j < i ==> s[j] != c,
    ensures
        first_index_of(s, c) == i,
    decreases s.len(),
{
    if i > 0 {
        assert forall|j: int| 0 <= j < i - 1 implies s.skip(1)[j] != c by {
            assert(s.skip(1)[j] == s[j + 1]);
        }
        assert(s.skip(1)[i - 1] == s[i]);
        lemma_first_index_of_unique(s.skip(1), c, i - 1);
    }
}

/// `d` joined with `b`: the root directory (empty path) contributes no separator.
pub open spec fn spec_join(d: Seq<char>, b: Seq<char>) -> Seq<char> {
    if d.len() == 0 {
        b
    } else {
        d + seq!['/'] + b
    }
}

/// `p` lies strictly inside directory `d` (with a nonempty remainder).
pub open spec fn is_under(p: Seq<char>, d: Seq<char>) -> bool {
    if d.len() == 0 {
        p.len() > 0
    } else {
        p.len() > d.len() + 1 && p.subrange(0, d.len() as int) == d && p[d.len() as int] == '/'
    }
}

/// The part of `p` below directory `d`; meaningful when `is_under(p, d)`.
pub open spec fn rest_under(p: Seq<char>, d: Seq<char>) -> Seq<char> {
    if d.len() == 0 {
        p
    } else {
        p.subrange(d.len() as int + 1, p.len() as int)
    }
}

/// No separator occurs in `s`.
pub open spec fn no_slash(s: Seq<char>) -> bool {
    forall|j: int| 0 <= j < s.len() ==> s[j] != '/'
}

/// `p` names a file or directory directly inside `d`.
pub open spec fn is_direct_child(p: Seq<char>, d: Seq<char>) -> bool {
    is_under(p, d) && no_slash(rest_under(p, d))
}

/// First segment of `s`, up to (excluding) the first separator.
pub open spec fn first_segment(s: Seq<char>) -> Seq<char> {
    if first_index_of(s, '/') < 0 {
        s
    } else {
        s.subrange(0, first_index_of(s, '/'))
    }
}

/// A well-formed relative path: nonempty, no leading, trailing or doubled separator.
pub open spec fn valid_rel_path(p: Seq<char>) -> bool {
    &&& p.len() > 0
    &&& p[0] != '/'
    &&& p[p.len() - 1] != '/'
    &&& forall|j: int| 0 <= j < p.len() - 1 ==> !(#[trigger] p[j] == '/' && p[j + 1] == '/')
}

/// A directory position: the root (empty) or a well-formed relative path.
pub open spec fn valid_dir_path(p: Seq<char>) -> bool {
    p.len() == 0 || valid_rel_path(p)
}

/// A single path segment: nonempty and separator-free.
pub open spec fn valid_name(n: Seq<char>) -> bool {
    n.len() > 0 && no_slash(n)
}

pub proof fn lemma_join_valid(d: Seq<char>, b: Seq<char>)
    requires
        valid_dir_path(d),
        valid_rel_path(b),
    ensures
        valid_rel_path(spec_join(d, b)),
        valid_dir_path(spec_join(d, b)),
{
    if d.len() > 0 {
        let p = spec_join(d, b);
        assert(p.len() == d.len() + 1 + b.len());
        assert forall|j: int| 0 <= j < p.len() - 1 implies !(#[trigger] p[j] == '/' && p[j + 1] == '/') by {
            if j < d.len() - 1 {
                assert(p[j] == d[j] && p[j + 1] == d[j + 1]);
            } else if j == d.len() - 1 {
                assert(p[j] == d[j] && p[j + 1] == '/');
            } else if j == d.len() {
                assert(p[j] == '/' && p[j + 1] == b[0]);
            } else {
                assert(p[j] == b[j - d.len() - 1] && p[j + 1] == b[j - d.len()]);
            }
        }
        assert(p[0] == d[0]);
        assert(p[p.len() - 1] == b[b.len() - 1]);
    }
}

pub proof fn lemma_join_under(d: Seq<char>, b: Seq<char>)
    requires
        b.len() > 0,
    ensures
        is_under(spec_join(d, b), d),
        rest_under(spec_join(d, b), d) == b,
{
    if d.len() > 0 {
        let p = spec_join(d, b);
        assert(p.subrange(0, d.len() as int) =~= d);
        assert(rest_under(p, d) =~= b);
    }
}

/// Splitting at the last separator gives back the original path.
pub proof fn lemma_join_of_split(p: Seq<char>, d: Seq<char>)
    requires
        is_under(p, d),
    ensures
        spec_join(d, rest_under(p, d)) == p,
{
    if d.len() > 0 {
        assert(spec_join(d, rest_under(p, d)) =~= p);
    }
}

/// Compares two string slices character by character.
pub fn str_eq(a: &str, b: &str) -> (r: bool)
    ensures
        r == (a@ == b@),
{
    let na = a.unicode_len();
    let nb = b.unicode_len();
    if na != nb {
        return false;
    }
    let mut i: usize = 0;
    while i < na
        invariant
            0 <= i <= na,
            na == a@.len(),
            na == b@.len(),
            forall|j: int| 0 <= j < i ==> a@[j] == b@[j],
        decreases na - i,
    {
        if a.get_char(i) != b.get_char(i) {
            return false;
        }
        i = i + 1;
    }
    proof {
        assert(a@ =~= b@);
    }
    true
}

/// Joins a directory path and a relative path with a separator.
pub fn join(d: &str, b: &str) -> (r: String)
    ensures
        r@ == spec_join(d@, b@),
{
    if d.unicode_len() == 0 {
        String::from_str(b)
    } else {
        let mut r = String::from_str(d);
        r.append("/");
        r.append(b);
        proof {
            reveal_strlit("/");
            assert(r@ =~= spec_join(d@, b@));
        }
        r
    }
}

/// Finds the last occurrence of `c` in `s`, scanning from the end.
pub fn rfind_char(s: &str, c: char) -> (r: Option<usize>)
    ensures
        match r {
            Some(i) => i == last_index_of(s@, c),
            None => last_index_of(s@, c) == -1,
        },
{
    let n = s.unicode_len();
    let mut i = n;
    while i > 0
        invariant
            0 <= i <= n,
            n == s@.len(),
            forall|j: int| i <= j < s@.len() ==> s@[j] != c,
        decreases i,
    {
        i = i - 1;
        if s.get_char(i) == c {
            proof {
                lemma_last_index_of_unique(s@, c, i as int);
            }
            return Some(i);
        }
    }
    proof {
        lemma_last_index_of_unique(s@, c, -1);
    }
    None
}

/// Finds the first occurrence of `c` in `s`.
pub fn find_char(s: &str, c: char) -> (r: Option<usize>)
    ensures
        match r {
            Some(i) => i == first_index_of(s@, c),
            None => first_index_of(s@, c) == -1,
        },
{
    let n = s.unicode_len();
    let mut i: usize = 0;
    while i < n
        invariant
            0 <= i <= n,
            n == s@.len(),
            forall|j: int| 0 <= j < i ==> s@[j] != c,
        decreases n - i,
    {
        if s.get_char(i) == c {
            proof {
                lemma_first_index_of_unique(s@, c, i as int);
            }
            return Some(i);
        }
        i = i + 1;
    }
    proof {
        lemma_first_index_of(s@, c);
    }
    None
}

/// The final segment of `p`: everything after the last separator.
pub open spec fn file_name_of(p: Seq<char>) -> Seq<char> {
    p.subrange(last_index_of(p, '/') + 1, p.len() as int)
}

/// The extension of `p`'s file name: everything after its last dot, unless
/// the dot starts the name.
pub open spec fn extension_of(p: Seq<char>) -> Option<Seq<char>> {
    let n = file_name_of(p);
    if last_index_of(n, '.') <= 0 {
        None
    } else {
        Some(n.subrange(last_index_of(n, '.') + 1, n.len() as int))
    }
}

/// Returns the final segment of `s`.
pub fn file_name_str(s: &str) -> (r: String)
    ensures
        r@ == file_name_of(s@),
{
    proof {
        lemma_last_index_of(s@, '/');
    }
    let n = s.unicode_len();
    match rfind_char(s, '/') {
        Some(i) => String::from_str(s.substring_char(i + 1, n)),
        None => {
            let r = String::from_str(s);
            proof {
                assert(r@ =~= file_name_of(s@));
            }
            r
        },
    }
}

/// Returns the extension of `s`'s file name, if any.
pub fn extension_str(s: &str) -> (r: Option<String>)
    ensures
        match r {
            Some(e) => extension_of(s@) == Some(e@),
            None => extension_of(s@) is None,
        },
{
    let name = file_name_str(s);
    let n = name.as_str().unicode_len();
    proof {
        lemma_last_index_of(name@, '.');
    }
    match rfind_char(name.as_str(), '.') {
        Some(i) => {
            if i == 0 {
                None
            } else {
                Some(String::from_str(name.as_str().substring_char(i + 1, n)))
            }
        },
        None => None,
    }
}

/// Tests whether `p` lies strictly inside the directory `d`.
pub fn check_under(p: &str, d: &str) -> (r: bool)
    ensures
        r == is_under(p@, d@),
{
    let np = p.unicode_len();
    let nd = d.unicode_len();
    if nd == 0 {
        return np > 0;
    }
    if np <= nd || np - nd < 2 {
        return false;
    }
    if p.get_char(nd) != '/' {
        return false;
    }
    let mut i: usize = 0;
    while i < nd
        invariant
            0 <= i <= nd,
            nd == d@.len(),
            np == p@.len(),
            np > nd + 1,
            forall|j: int| 0 <= j < i ==> p@[j] == d@[j],
        decreases nd - i,
    {
        if p.get_char(i) != d.get_char(i) {
            proof {
                assert(p@.subrange(0, d@.len() as int)[i as int] == p@[i as int]);
            }
            return false;
        }
        i = i + 1;
    }
    proof {
        assert(p@.subrange(0, d@.len() as int) =~= d@);
    }
    true
}

/// Returns the part of `p` below the directory `d`.
pub fn split_under(p: &str, d: &str) -> (r: String)
    requires
        is_under(p@, d@),
    ensures
        r@ == rest_under(p@, d@),
{
    let np = p.unicode_len();
    let nd = d.unicode_len();
    if nd == 0 {
        String::from_str(p)
    } else {
        String::from_str(p.substring_char(nd + 1, np))
    }
}

} // verus!
