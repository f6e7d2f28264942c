//! File names and extensions of paths, as `std::path::Path` finds them on
//! Windows, where both `/` and `\` separate components (drive and UNC
//! prefixes are not told apart from names).

use vstd::prelude::*;

use crate::text::{copy_range, last_index_of, last_index_of_exec, lemma_last_index_of_bound};

verus! {

/// A character that separates path components.
pub open spec fn is_separator(c: char) -> bool {
    c == '/' || c == '\\'
}

/// The position of the last separator in `s`.
pub open spec fn last_separator(s: Seq<char>) -> Option<int>
    decreases s.len(),
{
    if s.len() == 0 {
        None
    } else if is_separator(s.last()) {
        Some(s.len() - 1)
    } else {
        last_separator(s.drop_last())
    }
}

/// `last_separator` finds the last separator, if there is one.
proof fn lemma_last_separator(s: Seq<char>, j: int)
    requires
        0 <= j <= s.len(),
        forall|m: int| j <= m < s.len() ==> !is_separator(s[m]),
        j == 0 || is_separator(s[j - 1]),
    ensures
        last_separator(s) == if j == 0 {
            None::<int>
        } else {
            Some(j - 1)
        },
    decreases s.len(),
{
    if s.len() > 0 && j < s.len() {
        let t = s.drop_last();
        if j > 0 {
            assert(t[j - 1] == s[j - 1]);
        }
        lemma_last_separator(t, j);
    }
}

/// `last_separator` is a position of `s`.
proof fn lemma_last_separator_bound(s: Seq<char>)
    ensures
        last_separator(s) matches Some(j) ==> 0 <= j < s.len(),
    decreases s.len(),
{
    if s.len() > 0 && !is_separator(s.last()) {
        lemma_last_separator_bound(s.drop_last());
    }
}

/// The position of the last separator in `s`.
fn last_separator_exec(s: &[char]) -> (r: Option<usize>)
    ensures
        r matches Some(j) ==> last_separator(s@) == Some(j as int),
        r is None ==> last_separator(s@) is None,
{
    let mut j: usize = s.len();
    while j > 0 && s[j - 1] != '/' && s[j - 1] != '\\'
        invariant
            j <= s@.len(),
            forall|m: int| j <= m < s@.len() ==> !is_separator(s@[m]),
        decreases j,
    {
        j = j - 1;
    }
    proof {
        lemma_last_separator(s@, j as int);
    }
    if j > 0 {
        Some(j - 1)
    } else {
        None
    }
}

/// The last component of `p` that names a file or directory, as
/// `Path::file_name` finds it: empty components and `.` are skipped, and a
/// path that ends in `..` (or has no such component) has none.
pub open spec fn file_name(p: Seq<char>) -> Option<Seq<char>>
    decreases p.len(),
{
    match last_separator(p) {
        None => {
            if p.len() == 0 || p == seq!['.'] {
                None
            } else if p == seq!['.', '.'] {
                None
            } else {
                Some(p)
            }
        },
        Some(i) => {
            let seg = p.skip(i + 1);
            if seg.len() == 0 || seg == seq!['.'] {
                if 0 <= i < p.len() {
                    file_name(p.take(i))
                } else {
                    None
                }
            } else if seg == seq!['.', '.'] {
                None
            } else {
                Some(seg)
            }
        },
    }
}

/// The extension of `p`, as `Path::extension` finds it: what follows the
/// last `.` of the file name, unless that `.` starts the name.
pub open spec fn extension(p: Seq<char>) -> Option<Seq<char>> {
    match file_name(p) {
        None => None,
        Some(name) => match last_index_of(name, '.') {
            None => None,
            Some(i) => if i == 0 {
                None
            } else {
                Some(name.skip(i + 1))
            },
        },
    }
}

/// The extension of `p`, or the empty text when it has none.
pub open spec fn extension_or_empty(p: Seq<char>) -> Seq<char> {
    match extension(p) {
        Some(e) => e,
        None => seq![],
    }
}

/// Whether `s[lo..hi]` is the text `t`.
fn range_is(s: &[char], lo: usize, hi: usize, t: &[char]) -> (b: bool)
    requires
        lo <= hi <= s@.len(),
    ensures
        b == (s@.subrange(lo as int, hi as int) == t@),
{
    if hi - lo != t.len() {
        assert(s@.subrange(lo as int, hi as int).len() != t@.len());
        return false;
    }
    let mut k: usize = 0;
    while k < t.len()
        invariant
            hi - lo == t@.len(),
            lo <= hi <= s@.len(),
            k <= t@.len(),
            forall|m: int| 0 <= m < k ==> s@[lo + m] == t@[m],
        decreases t@.len() - k,
    {
        if s[lo + k] != t[k] {
            assert(s@.subrange(lo as int, hi as int)[k as int] != t@[k as int]);
            return false;
        }
        k = k + 1;
    }
    assert(s@.subrange(lo as int, hi as int) =~= t@);
    true
}

/// The file name of the path `p`.
pub fn file_name_of(p: &[char]) -> (r: Option<Vec<char>>)
    ensures
        r matches Some(v) ==> file_name(p@) == Some(v@),
        r is None ==> file_name(p@) is None,
{
    let dot = vec!['.'];
    let dotdot = vec!['.', '.'];
    assert(dot@ =~= seq!['.']);
    assert(dotdot@ =~= seq!['.', '.']);
    let mut hi: usize = p.len();
    assert(p@.take(hi as int) =~= p@);
    loop
        invariant
            hi <= p@.len(),
            file_name(p@) == file_name(p@.take(hi as int)),
            dot@ == seq!['.'],
            dotdot@ == seq!['.', '.'],
        decreases hi,
    {
        let ghost t = p@.take(hi as int);
        let head = copy_range(p, 0, hi);
        assert(head@ =~= t);
        match last_separator_exec(head.as_slice()) {
            None => {
                let empty_or_dot = hi == 0 || range_is(p, 0, hi, dot.as_slice());
                assert(p@.subrange(0, hi as int) =~= t);
                if empty_or_dot || range_is(p, 0, hi, dotdot.as_slice()) {
                    return None;
                }
                return Some(head);
            },
            Some(i) => {
                proof {
                    lemma_last_separator_bound(t);
                    assert(p@.subrange(i + 1, hi as int) =~= t.skip(i + 1));
                    assert(t.take(i as int) =~= p@.take(i as int));
                }
                if i + 1 == hi || range_is(p, i + 1, hi, dot.as_slice()) {
                    hi = i;
                } else if range_is(p, i + 1, hi, dotdot.as_slice()) {
                    return None;
                } else {
                    return Some(copy_range(p, i + 1, hi));
                }
            },
        }
    }
}

/// The extension of the path `p`.
pub fn extension_of(p: &[char]) -> (r: Option<Vec<char>>)
    ensures
        r matches Some(v) ==> extension(p@) == Some(v@),
        r is None ==> extension(p@) is None,
{
    match file_name_of(p) {
        None => None,
        Some(name) => match last_index_of_exec(name.as_slice(), '.') {
            None => None,
            Some(i) => {
                proof {
                    lemma_last_index_of_bound(name@, '.');
                }
                if i == 0 {
                    None
                } else {
                    let e = copy_range(name.as_slice(), i + 1, name.len());
                    assert(e@ =~= name@.skip(i + 1));
                    Some(e)
                }
            },
        },
    }
}

} // verus!
