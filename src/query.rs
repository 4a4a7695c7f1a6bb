//! Query records: table entries, quoted column references and the
//! tokenizing fallback over raw query text.

use vstd::prelude::*;
use vstd::string::*;
use crate::text::{
    chars_of, first_index_of, last_segment, last_segment_str, occurs_at, occurs_at_exec, split_on,
    split_str, tokenize, tokens, trim_chars, trim_set, views,
};

verus! {

/// One input record: raw query text, the table list and four fields of
/// column references.
#[derive(Debug, Clone)]
pub struct Query {
    pub query_text: String,
    pub tables: String,
    pub select_columns: String,
    pub join_columns: String,
    pub where_columns: String,
    pub agg_columns: String,
}

/// A table and the columns found for it.
#[derive(Debug, Clone)]
pub struct TableMetadata {
    pub table_name: String,
    pub columns: Vec<String>,
}

/// The separator between entries of a list field: a comma and a space.
pub open spec fn list_sep() -> Seq<char> {
    seq![',', ' ']
}

/// The leftmost match of the pattern `"([^"]+)"` in `s`: the text between
/// the quotes, and what follows the closing quote.
pub open spec fn quoted_match(s: Seq<char>) -> Option<(Seq<char>, Seq<char>)>
    decreases s.len(),
{
    let i = first_index_of(s, '"', 0);
    if i < 0 || i >= s.len() {
        None
    } else {
        let j = first_index_of(s, '"', i + 1);
        if j < 0 {
            None
        } else if j == i + 1 {
            quoted_match(s.subrange(i + 1, s.len() as int))
        } else {
            Some((s.subrange(i + 1, j), s.subrange(j + 1, s.len() as int)))
        }
    }
}

/// The column reference held by one fragment of a column field: its first
/// quoted text, joined by a dot to a second quoted text that follows at once
/// after a dot (the form `"q"."c"`).
pub open spec fn fragment_reference(f: Seq<char>) -> Option<Seq<char>> {
    match quoted_match(f) {
        None => None,
        Some((q, rest)) => if rest.len() >= 2 && rest[0] == '.' && rest[1] == '"' {
            match quoted_match(rest.drop_first()) {
                Some((c, _)) => Some(q + seq!['.'] + c),
                None => Some(q),
            }
        } else {
            Some(q)
        },
    }
}

/// The references of the fragments that hold one, in order.
pub open spec fn fragment_references(frags: Seq<Seq<char>>) -> Seq<Seq<char>>
    decreases frags.len(),
{
    if frags.len() == 0 {
        seq![]
    } else {
        let prev = fragment_references(frags.drop_last());
        match fragment_reference(frags.last()) {
            Some(r) => prev.push(r),
            None => prev,
        }
    }
}

/// The references in one column field.
pub open spec fn field_references(field: Seq<char>) -> Seq<Seq<char>> {
    fragment_references(split_on(field, list_sep()))
}

/// `s` with every repeated element after its first occurrence removed.
pub open spec fn dedup(s: Seq<Seq<char>>) -> Seq<Seq<char>>
    decreases s.len(),
{
    if s.len() == 0 {
        seq![]
    } else {
        let d = dedup(s.drop_last());
        if d.contains(s.last()) {
            d
        } else {
            d.push(s.last())
        }
    }
}

/// The distinct references of the four column fields of `q`, in order of
/// first appearance.
pub open spec fn column_references(q: &Query) -> Seq<Seq<char>> {
    dedup(
        field_references(q.select_columns@) + field_references(q.join_columns@)
            + field_references(q.where_columns@) + field_references(q.agg_columns@),
    )
}

/// Relies on regex::Regex::captures for the pattern `"([^"]+)"`: the
/// leftmost match, its first group, and the text after the match.
#[verifier::external_body]
fn first_quoted(s: &str) -> (r: Option<(String, String)>)
    ensures
        match r {
            Some(p) => quoted_match(s@) == Some((p.0@, p.1@)),
            None => quoted_match(s@) is None,
        },
{
    let re = regex::Regex::new(r#""([^"]+)""#).unwrap();
    match re.captures(s) {
        Some(caps) => {
            let whole = caps.get(0).unwrap();
            let inner = caps.get(1).unwrap();
            Some((inner.as_str().to_string(), s[whole.end()..].to_string()))
        },
        None => None,
    }
}

/// The column reference of one fragment of a column field, if it has one.
pub fn reference_of_fragment(f: &str) -> (r: Option<String>)
    ensures
        match r {
            Some(x) => fragment_reference(f@) == Some(x@),
            None => fragment_reference(f@) is None,
        },
{
    match first_quoted(f) {
        None => None,
        Some((q, rest)) => {
            let rc = chars_of(rest.as_str());
            if rc.len() >= 2 && rc[0] == '.' && rc[1] == '"' {
                let n = rc.len();
                let after = rest.as_str().substring_char(1, n);
                assert(after@ == rest@.drop_first());
                match first_quoted(after) {
                    Some((c, _)) => {
                        proof {
                            reveal_strlit(".");
                        }
                        let joined = q.concat(".").concat(c.as_str());
                        assert(joined@ =~= q@ + seq!['.'] + c@);
                        Some(joined)
                    },
                    None => Some(q),
                }
            } else {
                Some(q)
            }
        },
    }
}

/// Whether `s` is one of the strings of `v`.
pub fn contains_string(v: &Vec<String>, s: &String) -> (r: bool)
    ensures
        r == views(v@).contains(s@),
{
    let mut i: usize = 0;
    while i < v.len()
        invariant
            i <= v@.len(),
            forall|j: int| 0 <= j < i ==> v@[j]@ != s@,
        decreases v@.len() - i,
    {
        if v[i] == *s {
            assert(views(v@)[i as int] == s@);
            return true;
        }
        i = i + 1;
    }
    assert forall|j: int| 0 <= j < views(v@).len() implies views(v@)[j] != s@ by {
        assert(views(v@)[j] == v@[j]@);
    }
    false
}

/// Appends to `out` the references of `field` that it does not hold yet.
fn add_field_references(field: &String, out: &mut Vec<String>, Ghost(prev): Ghost<Seq<Seq<char>>>)
    requires
        views(old(out)@) == dedup(prev),
    ensures
        views(final(out)@) == dedup(prev + field_references(field@)),
{
    proof {
        reveal_strlit(", ");
    }
    let frags = split_str(field.as_str(), ", ");
    assert(", "@ =~= list_sep());
    let mut i: usize = 0;
    while i < frags.len()
        invariant
            views(frags@) == split_on(field@, list_sep()),
            i <= frags@.len(),
            views(out@) == dedup(prev + fragment_references(views(frags@).subrange(0, i as int))),
        decreases frags@.len() - i,
    {
        let ghost fs = views(frags@);
        let ghost before = prev + fragment_references(fs.subrange(0, i as int));
        assert(fs.subrange(0, i + 1).drop_last() =~= fs.subrange(0, i as int));
        assert(fs.subrange(0, i + 1).last() == frags@[i as int]@);
        match reference_of_fragment(frags[i].as_str()) {
            Some(r) => {
                assert(prev + fragment_references(fs.subrange(0, i + 1)) =~= before.push(r@));
                assert(before.push(r@).drop_last() =~= before);
                if !contains_string(out, &r) {
                    assert(views(out@.push(r)) =~= views(out@).push(r@));
                    out.push(r);
                }
            },
            None => {
                assert(prev + fragment_references(fs.subrange(0, i + 1)) =~= before);
            },
        }
        i = i + 1;
    }
    assert(views(frags@).subrange(0, i as int) =~= split_on(field@, list_sep()));
}

/// The keyword that precedes the table name in the fallback.
pub open spec fn kw_into() -> Seq<char> {
    seq!['I', 'N', 'T', 'O']
}

/// The keyword at which the fallback column list ends.
pub open spec fn kw_from() -> Seq<char> {
    seq!['F', 'R', 'O', 'M']
}

/// The keyword that also ends the fallback column list.
pub open spec fn kw_select() -> Seq<char> {
    seq!['S', 'E', 'L', 'E', 'C', 'T']
}

/// The characters trimmed from both ends of a fallback column token.
pub open spec fn column_trim_set() -> Seq<char> {
    seq![',', ')']
}

/// Index of the first token at or after `k` equal to `w`, or -1.
pub open spec fn position(ts: Seq<Seq<char>>, w: Seq<char>, k: int) -> int
    decreases ts.len() - k,
{
    if k < 0 || k >= ts.len() {
        -1
    } else if ts[k] == w {
        k
    } else {
        position(ts, w, k + 1)
    }
}

/// A found index, or 0 where none was found.
pub open spec fn or_zero(i: int) -> int {
    if i < 0 {
        0
    } else {
        i
    }
}

/// The white-space characters, as `char::is_whitespace` gives them.
pub open spec fn whitespace() -> Seq<char> {
    seq![
        '\t',
        '\n',
        '\u{b}',
        '\u{c}',
        '\r',
        ' ',
        '\u{85}',
        '\u{a0}',
        '\u{1680}',
        '\u{2000}',
        '\u{2001}',
        '\u{2002}',
        '\u{2003}',
        '\u{2004}',
        '\u{2005}',
        '\u{2006}',
        '\u{2007}',
        '\u{2008}',
        '\u{2009}',
        '\u{200a}',
        '\u{2028}',
        '\u{2029}',
        '\u{202f}',
        '\u{205f}',
        '\u{3000}',
    ]
}

/// The white-space characters.
fn whitespace_chars() -> (r: Vec<char>)
    ensures
        r@ == whitespace(),
{
    let mut r: Vec<char> = Vec::new();
    r.push('\t');
    r.push('\n');
    r.push('\u{b}');
    r.push('\u{c}');
    r.push('\r');
    r.push(' ');
    r.push('\u{85}');
    r.push('\u{a0}');
    r.push('\u{1680}');
    r.push('\u{2000}');
    r.push('\u{2001}');
    r.push('\u{2002}');
    r.push('\u{2003}');
    r.push('\u{2004}');
    r.push('\u{2005}');
    r.push('\u{2006}');
    r.push('\u{2007}');
    r.push('\u{2008}');
    r.push('\u{2009}');
    r.push('\u{200a}');
    r.push('\u{2028}');
    r.push('\u{2029}');
    r.push('\u{202f}');
    r.push('\u{205f}');
    r.push('\u{3000}');
    assert(r@ =~= whitespace());
    r
}

/// The index of the token that the fallback takes as the table name.
pub open spec fn fallback_table_index(ts: Seq<Seq<char>>) -> int {
    or_zero(position(ts, kw_into(), 0)) + 1
}

/// The table named in the raw query text: the last dot-separated segment of
/// the token after `INTO` (after the first token where there is no `INTO`),
/// trimmed of white space first, or empty where there is no such token.
pub open spec fn fallback_table(text: Seq<char>) -> Seq<char> {
    let ts = tokens(text);
    let i = fallback_table_index(ts);
    if i < ts.len() {
        last_segment(trim_set(ts[i], whitespace()), '.')
    } else {
        seq![]
    }
}

/// Where the fallback column list starts: four tokens after a `(` token, or
/// at index 4 where there is none.
pub open spec fn fallback_start(ts: Seq<Seq<char>>) -> int {
    or_zero(position(ts, seq!['('], 0)) + 4
}

/// Where the fallback column list ends: at the first `SELECT` or `FROM`
/// token, or at index 0 where there is neither.
pub open spec fn fallback_end(ts: Seq<Seq<char>>) -> int {
    let f = position(ts, kw_from(), 0);
    let s = position(ts, kw_select(), 0);
    if f < 0 {
        or_zero(s)
    } else if s < 0 || f <= s {
        f
    } else {
        s
    }
}

/// Whether `w` occurs anywhere in `t`.
pub open spec fn contains_word(t: Seq<char>, w: Seq<char>) -> bool {
    exists|i: int| occurs_at(t, w, i)
}

/// Whether a token of the column range names a column.
pub open spec fn keeps_token(t: Seq<char>) -> bool {
    t.len() > 0 && t != kw_from() && !contains_word(t, kw_into())
}

/// The kept tokens of a range, trimmed of `,` and `)`.
pub open spec fn clean_columns(ts: Seq<Seq<char>>) -> Seq<Seq<char>>
    decreases ts.len(),
{
    if ts.len() == 0 {
        seq![]
    } else {
        let prev = clean_columns(ts.drop_last());
        if keeps_token(ts.last()) {
            prev.push(trim_set(ts.last(), column_trim_set()))
        } else {
            prev
        }
    }
}

/// The columns named in the raw query text by the fallback.
pub open spec fn fallback_columns(text: Seq<char>) -> Seq<Seq<char>> {
    let ts = tokens(text);
    let a = fallback_start(ts);
    let b = fallback_end(ts);
    if a < b && b <= ts.len() {
        clean_columns(ts.subrange(a, b))
    } else {
        seq![]
    }
}

/// The first index at or after 0 of a token equal to `w`.
fn find_token(ts: &Vec<String>, w: &String) -> (r: Option<usize>)
    ensures
        match r {
            Some(i) => position(views(ts@), w@, 0) == i && i < ts@.len(),
            None => position(views(ts@), w@, 0) == -1,
        },
{
    let mut k: usize = 0;
    while k < ts.len()
        invariant
            k <= ts@.len(),
            position(views(ts@), w@, k as int) == position(views(ts@), w@, 0),
        decreases ts@.len() - k,
    {
        assert(views(ts@)[k as int] == ts@[k as int]@);
        if ts[k] == *w {
            return Some(k);
        }
        k = k + 1;
    }
    None
}

/// Whether `w` occurs anywhere in `t`.
fn contains_word_exec(t: &String, w: &Vec<char>) -> (r: bool)
    requires
        w@.len() > 0,
    ensures
        r == contains_word(t@, w@),
{
    let cs = chars_of(t.as_str());
    let mut i: usize = 0;
    while i < cs.len()
        invariant
            cs@ == t@,
            i <= cs@.len(),
            forall|j: int| 0 <= j < i ==> !occurs_at(t@, w@, j),
        decreases cs@.len() - i,
    {
        if occurs_at_exec(&cs, w, i) {
            return true;
        }
        i = i + 1;
    }
    assert forall|j: int| !occurs_at(t@, w@, j) by {
        if 0 <= j < i {
        } else {
        }
    }
    false
}

impl Query {

    /// The table named in the raw query text, as a one-entry list.
    pub fn tables_query_text(&self) -> (r: Vec<String>)
        ensures
            views(r@) == seq![fallback_table(self.query_text@)],
    {
        let ts = tokenize(self.query_text.as_str());
        let ghost tv = views(ts@);
        proof {
            reveal_strlit("INTO");
        }
        let into = String::from_str("INTO");
        assert(into@ =~= kw_into());
        let i: usize = match find_token(&ts, &into) {
            Some(p) => p,
            None => 0,
        };
        let mut r: Vec<String> = Vec::new();
        if ts.len() > 0 && i < ts.len() - 1 {
            assert(tv[i + 1] == ts@[i + 1]@);
            let ws = whitespace_chars();
            let token = trim_chars(ts[i + 1].as_str(), &ws);
            r.push(last_segment_str(token.as_str(), '.'));
        } else {
            r.push(String::new());
        }
        assert(views(r@) =~= seq![fallback_table(self.query_text@)]);
        r
    }

    /// The columns named in the raw query text, found by the fallback.
    pub fn columns_query_text(&self) -> (r: Vec<String>)
        ensures
            views(r@) == fallback_columns(self.query_text@),
    {
        let ts = tokenize(self.query_text.as_str());
        let ghost tv = views(ts@);
        proof {
            reveal_strlit("(");
            reveal_strlit("FROM");
            reveal_strlit("SELECT");
            reveal_strlit("INTO");
            reveal_strlit(",)");
        }
        let open = String::from_str("(");
        let from = String::from_str("FROM");
        let select = String::from_str("SELECT");
        let into = chars_of("INTO");
        let trim = chars_of(",)");
        assert(open@ =~= seq!['(']);
        assert(from@ =~= kw_from());
        assert(select@ =~= kw_select());
        assert(into@ =~= kw_into());
        assert(trim@ =~= column_trim_set());
        let a: usize = match find_token(&ts, &open) {
            Some(p) => if p <= usize::MAX - 4 {
                p + 4
            } else {
                usize::MAX
            },
            None => 4,
        };
        let b: usize = match (find_token(&ts, &from), find_token(&ts, &select)) {
            (None, None) => 0,
            (None, Some(s)) => s,
            (Some(f), None) => f,
            (Some(f), Some(s)) => if f <= s {
                f
            } else {
                s
            },
        };
        let mut r: Vec<String> = Vec::new();
        if a < b {
            let mut k: usize = a;
            while k < b
                invariant
                    tv == views(ts@),
                    a <= k <= b,
                    b <= ts@.len(),
                    from@ == kw_from(),
                    into@ == kw_into(),
                    trim@ == column_trim_set(),
                    views(r@) == clean_columns(tv.subrange(a as int, k as int)),
                decreases b - k,
            {
                let tok = &ts[k];
                assert(tv.subrange(a as int, k + 1).drop_last() =~= tv.subrange(a as int, k as int));
                assert(tv.subrange(a as int, k + 1).last() == tok@);
                let keep = tok.unicode_len() > 0 && !(*tok == from) && !contains_word_exec(tok, &into);
                if keep {
                    let c = trim_chars(tok.as_str(), &trim);
                    assert(views(r@.push(c)) =~= views(r@).push(c@));
                    r.push(c);
                }
                k = k + 1;
            }
        }
        r
    }
    /// The entries of the table list, split on `", "`.
    pub fn tables(&self) -> (r: Vec<String>)
        ensures
            views(r@) == split_on(self.tables@, list_sep()),
    {
        proof {
            reveal_strlit(", ");
        }
        assert(", "@ =~= list_sep());
        split_str(self.tables.as_str(), ", ")
    }

    /// The distinct quoted column references of the four column fields.
    pub fn columns(&self) -> (r: Vec<String>)
        ensures
            views(r@) == column_references(self),
    {
        let mut out: Vec<String> = Vec::new();
        let ghost s = field_references(self.select_columns@);
        let ghost j = field_references(self.join_columns@);
        let ghost w = field_references(self.where_columns@);
        let ghost a = field_references(self.agg_columns@);
        assert(views(out@) =~= dedup(Seq::empty()));
        add_field_references(&self.select_columns, &mut out, Ghost(Seq::empty()));
        assert(Seq::<Seq<char>>::empty() + s =~= s);
        add_field_references(&self.join_columns, &mut out, Ghost(s));
        add_field_references(&self.where_columns, &mut out, Ghost(s + j));
        add_field_references(&self.agg_columns, &mut out, Ghost(s + j + w));
        out
    }
}

} // verus!
