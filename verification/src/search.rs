//! Searching character sequences: first and last occurrence of a character,
//! and the first `://` separator.

use vstd::prelude::*;

verus! {

/// `k` is the first position of `ch` in `s`.
pub open spec fn is_first(s: Seq<char>, ch: char, k: int) -> bool {
    0 <= k < s.len() && s[k] == ch && forall|j: int| 0 <= j < k ==> s[j] != ch
}

/// The first position of `ch` in `s`, or -1 if there is none.
pub open spec fn index_of(s: Seq<char>, ch: char) -> int {
    if exists|k: int| is_first(s, ch, k) {
        choose|k: int| is_first(s, ch, k)
    } else {
        -1
    }
}

/// `k` is the last position of `ch` in `s`.
pub open spec fn is_last(s: Seq<char>, ch: char, k: int) -> bool {
    0 <= k < s.len() && s[k] == ch && forall|j: int| k < j < s.len() ==> s[j] != ch
}

/// The last position of `ch` in `s`, or -1 if there is none.
pub open spec fn last_index_of(s: Seq<char>, ch: char) -> int {
    if exists|k: int| is_last(s, ch, k) {
        choose|k: int| is_last(s, ch, k)
    } else {
        -1
    }
}

/// `s` holds `://` at position `k`.
pub open spec fn sep_at(s: Seq<char>, k: int) -> bool {
    0 <= k && k + 3 <= s.len() && s[k] == ':' && s[k + 1] == '/' && s[k + 2] == '/'
}

/// `k` is the first position of `://` in `s`.
pub open spec fn is_first_sep(s: Seq<char>, k: int) -> bool {
    sep_at(s, k) && forall|j: int| 0 <= j < k ==> !#[trigger] sep_at(s, j)
}

/// The first position of `://` in `s`, or -1 if there is none.
pub open spec fn scheme_sep(s: Seq<char>) -> int {
    if exists|k: int| is_first_sep(s, k) {
        choose|k: int| is_first_sep(s, k)
    } else {
        -1
    }
}

/// The first position of `ch` in `v`.
pub fn find_char(v: &Vec<char>, ch: char) -> (r: Option<usize>)
    ensures
        match r {
            Some(k) => index_of(v@, ch) == k && is_first(v@, ch, k as int),
            None => index_of(v@, ch) == -1 && forall|j: int| 0 <= j < v.len() ==> v@[j] != ch,
        },
{
    for i in 0..v.len()
        invariant
            forall|j: int| 0 <= j < i ==> v@[j] != ch,
    {
        if v[i] == ch {
            proof {
                assert(is_first(v@, ch, i as int));
                let k = choose|k: int| is_first(v@, ch, k);
                assert(k == i);
            }
            return Some(i);
        }
    }
    None
}

/// The last position of `ch` in `v`.
pub fn rfind_char(v: &Vec<char>, ch: char) -> (r: Option<usize>)
    ensures
        match r {
            Some(k) => last_index_of(v@, ch) == k && is_last(v@, ch, k as int),
            None => last_index_of(v@, ch) == -1 && forall|j: int| 0 <= j < v.len() ==> v@[j] != ch,
        },
{
    let mut i = v.len();
    while i > 0
        invariant
            i <= v.len(),
            forall|j: int| i <= j < v.len() ==> v@[j] != ch,
        decreases i,
    {
        if v[i - 1] == ch {
            proof {
                assert(is_last(v@, ch, i - 1));
                let k = choose|k: int| is_last(v@, ch, k);
                assert(k == i - 1);
            }
            return Some(i - 1);
        }
        i = i - 1;
    }
    None
}

/// The first position of `://` in `v`.
pub fn find_scheme_sep(v: &Vec<char>) -> (r: Option<usize>)
    ensures
        match r {
            Some(k) => scheme_sep(v@) == k && is_first_sep(v@, k as int),
            None => scheme_sep(v@) == -1 && forall|j: int| !#[trigger] sep_at(v@, j),
        },
{
    let mut i: usize = 0;
    while v.len() >= 3 && i <= v.len() - 3
        invariant
            i <= v.len(),
            forall|j: int| 0 <= j < i ==> !#[trigger] sep_at(v@, j),
        decreases v.len() - i,
    {
        if v[i] == ':' && v[i + 1] == '/' && v[i + 2] == '/' {
            proof {
                assert(is_first_sep(v@, i as int));
                let k = choose|k: int| is_first_sep(v@, k);
                if k < i {
                    assert(sep_at(v@, k));
                }
                if k > i {
                    assert(sep_at(v@, i as int));
                }
            }
            return Some(i);
        }
        i = i + 1;
    }
    None
}

} // verus!
