//! Small verified string helpers: equality, finding a separator, and
//! trimming surrounding whitespace.

use vstd::prelude::*;
use vstd::string::StrSliceExecFns;

verus! {

/// The Unicode `White_Space` property, written out: the code points that
/// `char::is_whitespace` accepts.
pub open spec fn is_unicode_ws(c: char) -> bool {
    let u = c as u32;
    (9 <= u && u <= 13) || u == 32 || u == 0x85 || u == 0xA0 || u == 0x1680 || (0x2000 <= u && u
        <= 0x200A) || u == 0x2028 || u == 0x2029 || u == 0x202F || u == 0x205F || u == 0x3000
}

/// Relies on char::is_whitespace: the Unicode `White_Space` property, the
/// fixed set of code points that `is_unicode_ws` lists.
#[verifier::external_body]
pub fn char_is_whitespace(c: char) -> (r: bool)
    ensures
        r == is_unicode_ws(c),
{
    c.is_whitespace()
}

/// Character-by-character string equality.
pub fn str_eq(a: &str, b: &str) -> (r: bool)
    ensures
        r == (a@ == b@),
{
    let n: usize = a.unicode_len();
    let m: usize = b.unicode_len();
    if n != m {
        return false;
    }
    let mut i: usize = 0;
    while i < n
        invariant
            0 <= i <= n,
            n == a@.len(),
            n == b@.len(),
            forall|j: int| 0 <= j < i ==> a@[j] == b@[j],
        decreases n - i,
    {
        if a.get_char(i) != b.get_char(i) {
            return false;
        }
        i = i + 1;
    }
    proof {
        assert(a@ =~= b@);
    }
    true
}

/// Index of the first character satisfying `p`, or the length if none does.
pub open spec fn first_where(s: Seq<char>, p: spec_fn(char) -> bool) -> int
    decreases s.len(),
{
    if s.len() == 0 {
        0
    } else if p(s[0]) {
        0
    } else {
        1 + first_where(s.drop_first(), p)
    }
}

/// A position with nothing satisfying `p` before it, and either at the end
/// or itself satisfying `p`, is exactly `first_where`.
pub proof fn lemma_first_where(s: Seq<char>, p: spec_fn(char) -> bool, k: int)
    requires
        0 <= k <= s.len(),
        forall|i: int| 0 <= i < k ==> !p(s[i]),
        k < s.len() ==> p(s[k]),
    ensures
        first_where(s, p) == k,
    decreases k,
{
    if s.len() != 0 && !p(s[0]) {
        lemma_first_where(s.drop_first(), p, k - 1);
    }
}

/// One past the last character satisfying `p`, or zero if none does.
pub open spec fn last_where_end(s: Seq<char>, p: spec_fn(char) -> bool) -> int
    decreases s.len(),
{
    if s.len() == 0 {
        0
    } else if p(s[s.len() - 1]) {
        s.len() as int
    } else {
        last_where_end(s.drop_last(), p)
    }
}

pub proof fn lemma_last_where_end(s: Seq<char>, p: spec_fn(char) -> bool, k: int)
    requires
        0 <= k <= s.len(),
        forall|i: int| k <= i < s.len() ==> !p(s[i]),
        k > 0 ==> p(s[k - 1]),
    ensures
        last_where_end(s, p) == k,
    decreases s.len(),
{
    if s.len() != 0 && !p(s[s.len() - 1]) {
        lemma_last_where_end(s.drop_last(), p, k);
    }
}

/// `s` with leading and trailing whitespace removed.
pub open spec fn spec_trim(s: Seq<char>) -> Seq<char> {
    let start = first_where(s, |c: char| !is_unicode_ws(c));
    let end = last_where_end(s, |c: char| !is_unicode_ws(c));
    if start >= end {
        Seq::empty()
    } else {
        s.subrange(start, end)
    }
}

/// Removes surrounding whitespace, like `str::trim`.
pub fn trim_str(s: &str) -> (r: String)
    ensures
        r@ == spec_trim(s@),
{
    let n: usize = s.unicode_len();
    let mut start: usize = 0;
    while start < n && char_is_whitespace(s.get_char(start))
        invariant
            0 <= start <= n,
            n == s@.len(),
            forall|i: int| 0 <= i < start ==> is_unicode_ws(s@[i]),
        decreases n - start,
    {
        start = start + 1;
    }
    proof {
        lemma_first_where(s@, |c: char| !is_unicode_ws(c), start as int);
    }
    if start == n {
        proof {
            lemma_last_where_end(s@, |c: char| !is_unicode_ws(c), 0);
        }
        return String::new();
    }
    let mut end: usize = n;
    while end > start && char_is_whitespace(s.get_char(end - 1))
        invariant
            start <= end <= n,
            n == s@.len(),
            start < n,
            !is_unicode_ws(s@[start as int]),
            forall|i: int| end <= i < n ==> is_unicode_ws(s@[i]),
        decreases end,
    {
        end = end - 1;
    }
    proof {
        lemma_last_where_end(s@, |c: char| !is_unicode_ws(c), end as int);
    }
    let piece: &str = s.substring_char(start, end);
    piece.to_owned()
}

/// Index of the first occurrence of `c` in `s`, if any.
pub fn find_char(s: &str, c: char) -> (r: Option<usize>)
    ensures
        match r {
            Some(i) => {
                &&& 0 <= i < s@.len()
                &&& s@[i as int] == c
                &&& forall|j: int| 0 <= j < i ==> s@[j] != c
                &&& i == first_where(s@, |x: char| x == c)
            },
            None => forall|j: int| 0 <= j < s@.len() ==> s@[j] != c,
        },
{
    let n: usize = s.unicode_len();
    let mut i: usize = 0;
    while i < n
        invariant
            0 <= i <= n,
            n == s@.len(),
            forall|j: int| 0 <= j < i ==> s@[j] != c,
        decreases n - i,
    {
        if s.get_char(i) == c {
            proof {
                lemma_first_where(s@, |x: char| x == c, i as int);
            }
            return Some(i);
        }
        i = i + 1;
    }
    None
}

} // verus!
