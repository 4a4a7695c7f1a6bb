//! Character-level text operations with exact specifications.

use vstd::prelude::*;
use vstd::string::*;

verus! {

/// The character contents of each string of a sequence.
pub open spec fn views(v: Seq<String>) -> Seq<Seq<char>> {
    v.map_values(|x: String| x@)
}

/// `sep` occurs in `s` starting at position `i`.
pub open spec fn occurs_at(s: Seq<char>, sep: Seq<char>, i: int) -> bool {
    0 <= i && i + sep.len() <= s.len() && s.subrange(i, i + sep.len()) == sep
}

/// The pieces of `s` between the occurrences of `sep`, found left to right
/// without overlap; the current piece starts at `start` and the scan is at `k`.
pub open spec fn split_from(s: Seq<char>, sep: Seq<char>, start: int, k: int) -> Seq<Seq<char>>
    decreases s.len() - k,
{
    if sep.len() == 0 || k < 0 || k + sep.len() > s.len() {
        seq![s.subrange(start, s.len() as int)]
    } else if occurs_at(s, sep, k) {
        seq![s.subrange(start, k)] + split_from(s, sep, k + sep.len(), k + sep.len())
    } else {
        split_from(s, sep, start, k + 1)
    }
}

/// `s` split on every occurrence of `sep`.
pub open spec fn split_on(s: Seq<char>, sep: Seq<char>) -> Seq<Seq<char>> {
    split_from(s, sep, 0, 0)
}

pub proof fn lemma_split_from_nonempty(s: Seq<char>, sep: Seq<char>, start: int, k: int)
    ensures
        split_from(s, sep, start, k).len() >= 1,
    decreases s.len() - k,
{
    if sep.len() == 0 || k < 0 || k + sep.len() > s.len() {
    } else if occurs_at(s, sep, k) {
        lemma_split_from_nonempty(s, sep, k + sep.len(), k + sep.len());
    } else {
        lemma_split_from_nonempty(s, sep, start, k + 1);
    }
}

/// The characters of a string, one by one.
pub fn chars_of(s: &str) -> (r: Vec<char>)
    ensures
        r@ == s@,
{
    let n = s.unicode_len();
    let mut r: Vec<char> = Vec::new();
    let mut i: usize = 0;
    while i < n
        invariant
            n == s@.len(),
            i <= n,
            r@ == s@.subrange(0, i as int),
        decreases n - i,
    {
        r.push(s.get_char(i));
        i = i + 1;
    }
    r
}

/// Whether `sep` occurs in `s` at position `k`.
pub fn occurs_at_exec(s: &Vec<char>, sep: &Vec<char>, k: usize) -> (r: bool)
    ensures
        r == occurs_at(s@, sep@, k as int),
{
    if k > s.len() || sep.len() > s.len() - k {
        return false;
    }
    let n = s.len();
    let mut j: usize = 0;
    while j < sep.len()
        invariant
            n == s@.len(),
            k + sep@.len() <= s@.len(),
            j <= sep@.len(),
            forall|t: int| 0 <= t < j ==> s@[k + t] == sep@[t],
        decreases sep@.len() - j,
    {
        if s[k + j] != sep[j] {
            assert(s@.subrange(k as int, k + sep@.len())[j as int] != sep@[j as int]);
            return false;
        }
        j = j + 1;
    }
    assert(s@.subrange(k as int, k + sep@.len()) =~= sep@);
    true
}

/// Splits `s` on every occurrence of the non-empty separator `sep`.
pub fn split_str(s: &str, sep: &str) -> (r: Vec<String>)
    requires
        sep@.len() > 0,
    ensures
        views(r@) == split_on(s@, sep@),
{
    let cs = chars_of(s);
    let ps = chars_of(sep);
    let n = cs.len();
    let w = ps.len();
    let mut r: Vec<String> = Vec::new();
    let mut start: usize = 0;
    let mut k: usize = 0;
    while w <= n - k
        invariant
            cs@ == s@,
            ps@ == sep@,
            n == s@.len(),
            w == sep@.len(),
            w > 0,
            start <= k <= n,
            views(r@) + split_from(s@, sep@, start as int, k as int) == split_on(s@, sep@),
        decreases n - k,
    {
        if occurs_at_exec(&cs, &ps, k) {
            let piece = String::from_str(s.substring_char(start, k));
            proof {
                assert(views(r@.push(piece)) =~= views(r@).push(piece@));
                assert(seq![s@.subrange(start as int, k as int)] + split_from(s@, sep@, (k + w) as int, (k + w) as int)
                    == split_from(s@, sep@, start as int, k as int));
                assert(views(r@).push(piece@) + split_from(s@, sep@, (k + w) as int, (k + w) as int)
                    =~= views(r@) + (seq![piece@] + split_from(s@, sep@, (k + w) as int, (k + w) as int)));
            }
            r.push(piece);
            k = k + w;
            start = k;
        } else {
            k = k + 1;
        }
    }
    let last = String::from_str(s.substring_char(start, n));
    proof {
        assert(views(r@.push(last)) =~= views(r@).push(last@));
        assert(views(r@).push(last@) =~= views(r@) + split_from(s@, sep@, start as int, k as int));
    }
    r.push(last);
    r
}


/// A character at which query text is broken into tokens.
pub open spec fn is_token_break(c: char) -> bool {
    c == '(' || c == ')' || c == ' '
}

/// The tokens of `s` between token breaks; the current token starts at
/// `start` and the scan is at `k`.
pub open spec fn tokens_from(s: Seq<char>, start: int, k: int) -> Seq<Seq<char>>
    decreases s.len() - k,
{
    if k < 0 || k >= s.len() {
        seq![s.subrange(start, s.len() as int)]
    } else if is_token_break(s[k]) {
        seq![s.subrange(start, k)] + tokens_from(s, k + 1, k + 1)
    } else {
        tokens_from(s, start, k + 1)
    }
}

/// `s` split at every `(`, `)` and space; empty tokens are kept.
pub open spec fn tokens(s: Seq<char>) -> Seq<Seq<char>> {
    tokens_from(s, 0, 0)
}

/// Splits query text into tokens at every `(`, `)` and space.
pub fn tokenize(s: &str) -> (r: Vec<String>)
    ensures
        views(r@) == tokens(s@),
{
    let cs = chars_of(s);
    let n = cs.len();
    let mut r: Vec<String> = Vec::new();
    let mut start: usize = 0;
    let mut k: usize = 0;
    while k < n
        invariant
            cs@ == s@,
            n == s@.len(),
            start <= k <= n,
            views(r@) + tokens_from(s@, start as int, k as int) == tokens(s@),
        decreases n - k,
    {
        let c = cs[k];
        if c == '(' || c == ')' || c == ' ' {
            let piece = String::from_str(s.substring_char(start, k));
            proof {
                assert(views(r@.push(piece)) =~= views(r@).push(piece@));
                assert(views(r@).push(piece@) + tokens_from(s@, k + 1, k + 1)
                    =~= views(r@) + (seq![piece@] + tokens_from(s@, k + 1, k + 1)));
            }
            r.push(piece);
            k = k + 1;
            start = k;
        } else {
            k = k + 1;
        }
    }
    let last = String::from_str(s.substring_char(start, n));
    proof {
        assert(views(r@.push(last)) =~= views(r@).push(last@));
        assert(views(r@).push(last@) =~= views(r@) + tokens_from(s@, start as int, k as int));
    }
    r.push(last);
    r
}

/// `s` without the leading characters that belong to `set`.
pub open spec fn trim_start(s: Seq<char>, set: Seq<char>) -> Seq<char>
    decreases s.len(),
{
    if s.len() > 0 && set.contains(s[0]) {
        trim_start(s.drop_first(), set)
    } else {
        s
    }
}

/// `s` without the trailing characters that belong to `set`.
pub open spec fn trim_end(s: Seq<char>, set: Seq<char>) -> Seq<char>
    decreases s.len(),
{
    if s.len() > 0 && set.contains(s.last()) {
        trim_end(s.drop_last(), set)
    } else {
        s
    }
}

/// `s` without the leading and trailing characters that belong to `set`.
pub open spec fn trim_set(s: Seq<char>, set: Seq<char>) -> Seq<char> {
    trim_end(trim_start(s, set), set)
}

/// Whether `c` is one of the characters of `set`.
pub fn contains_char(set: &Vec<char>, c: char) -> (r: bool)
    ensures
        r == set@.contains(c),
{
    let mut i: usize = 0;
    while i < set.len()
        invariant
            i <= set@.len(),
            forall|j: int| 0 <= j < i ==> set@[j] != c,
        decreases set@.len() - i,
    {
        if set[i] == c {
            return true;
        }
        i = i + 1;
    }
    false
}

/// Removes from both ends of `s` the characters that belong to `set`.
pub fn trim_chars(s: &str, set: &Vec<char>) -> (r: String)
    ensures
        r@ == trim_set(s@, set@),
{
    let cs = chars_of(s);
    let n = cs.len();
    let mut a: usize = 0;
    assert(s@.subrange(0, n as int) =~= s@);
    while a < n && contains_char(set, cs[a])
        invariant
            cs@ == s@,
            n == s@.len(),
            a <= n,
            trim_start(s@.subrange(a as int, n as int), set@) == trim_start(s@, set@),
        decreases n - a,
    {
        assert(s@.subrange(a as int, n as int).drop_first() =~= s@.subrange(a + 1, n as int));
        a = a + 1;
    }
    assert(trim_start(s@, set@) == s@.subrange(a as int, n as int));
    let mut b: usize = n;
    while b > a && contains_char(set, cs[b - 1])
        invariant
            cs@ == s@,
            n == s@.len(),
            a <= b <= n,
            trim_end(s@.subrange(a as int, b as int), set@) == trim_set(s@, set@),
        decreases b - a,
    {
        assert(s@.subrange(a as int, b as int).drop_last() =~= s@.subrange(a as int, b - 1));
        b = b - 1;
    }
    String::from_str(s.substring_char(a, b))
}

/// Position of the last `c` in `s` before `k`, or -1.
pub open spec fn last_index_of(s: Seq<char>, c: char, k: int) -> int
    decreases k,
{
    if k <= 0 {
        -1
    } else if s[k - 1] == c {
        k - 1
    } else {
        last_index_of(s, c, k - 1)
    }
}

/// What follows the last `c` in `s`; all of `s` where there is none.
pub open spec fn last_segment(s: Seq<char>, c: char) -> Seq<char> {
    s.subrange(last_index_of(s, c, s.len() as int) + 1, s.len() as int)
}

/// The part of `s` after its last `c`.
pub fn last_segment_str(s: &str, c: char) -> (r: String)
    ensures
        r@ == last_segment(s@, c),
{
    let cs = chars_of(s);
    let n = cs.len();
    let mut k: usize = n;
    while k > 0 && cs[k - 1] != c
        invariant
            cs@ == s@,
            n == s@.len(),
            k <= n,
            last_index_of(s@, c, k as int) == last_index_of(s@, c, n as int),
        decreases k,
    {
        k = k - 1;
    }
    String::from_str(s.substring_char(k, n))
}

/// Position of the first `c` in `s` at or after `k`, or -1.
pub open spec fn first_index_of(s: Seq<char>, c: char, k: int) -> int
    decreases s.len() - k,
{
    if k < 0 || k >= s.len() {
        -1
    } else if s[k] == c {
        k
    } else {
        first_index_of(s, c, k + 1)
    }
}

/// `s` cut at its first `c` into what precedes and what follows it.
pub open spec fn split_at_first(s: Seq<char>, c: char) -> Option<(Seq<char>, Seq<char>)> {
    let i = first_index_of(s, c, 0);
    if i < 0 {
        None
    } else {
        Some((s.subrange(0, i), s.subrange(i + 1, s.len() as int)))
    }
}

/// Cuts `s` at its first `c`.
pub fn split_first_str(s: &str, c: char) -> (r: Option<(String, String)>)
    ensures
        match r {
            Some(p) => split_at_first(s@, c) == Some((p.0@, p.1@)),
            None => split_at_first(s@, c) is None,
        },
{
    let cs = chars_of(s);
    let n = cs.len();
    let mut k: usize = 0;
    while k < n && cs[k] != c
        invariant
            cs@ == s@,
            n == s@.len(),
            k <= n,
            first_index_of(s@, c, k as int) == first_index_of(s@, c, 0),
        decreases n - k,
    {
        k = k + 1;
    }
    if k == n {
        None
    } else {
        let head = String::from_str(s.substring_char(0, k));
        let tail = String::from_str(s.substring_char(k + 1, n));
        Some((head, tail))
    }
}

} // verus!
