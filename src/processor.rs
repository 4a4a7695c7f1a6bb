//! Resolution of table aliases, and the per-table column inventory of a
//! batch of queries.

use vstd::prelude::*;
use vstd::string::*;
use crate::order::{insert_sorted, sorted_strictly};
use crate::query::{column_references, fallback_columns, fallback_table, list_sep, Query};
use crate::text::{
    last_segment, last_segment_str, lemma_split_from_nonempty, split_at_first, split_first_str,
    split_on, split_str, trim_chars, trim_set, views,
};

verus! {

/// A table and its sorted, distinct columns.
#[derive(Debug, Clone)]
pub struct Data {
    pub table_name: String,
    pub columns: Vec<String>,
}

/// The characters stripped from table names and aliases.
pub open spec fn delimiters() -> Seq<char> {
    seq!['[', ']', '"']
}

/// The token that introduces an alias.
pub open spec fn alias_sep() -> Seq<char> {
    seq![' ', 'a', 's', ' ']
}

/// The canonical table name of a table entry: the part before `" as "`
/// stripped of delimiters, its last dot-separated segment, stripped again.
pub open spec fn entry_table(e: Seq<char>) -> Seq<char> {
    let pre = split_on(e, alias_sep())[0];
    trim_set(last_segment(trim_set(pre, delimiters()), '.'), delimiters())
}

/// The alias of a table entry, stripped of delimiters; empty where there is
/// no `" as "`.
pub open spec fn entry_alias(e: Seq<char>) -> Seq<char> {
    let parts = split_on(e, alias_sep());
    if parts.len() > 1 {
        trim_set(parts[1], delimiters())
    } else {
        seq![]
    }
}

/// Index of the first pair at or after `i` whose table is `k`, or -1.
pub open spec fn key_index(l: Seq<(Seq<char>, Seq<char>)>, k: Seq<char>, i: int) -> int
    decreases l.len() - i,
{
    if i < 0 || i >= l.len() {
        -1
    } else if l[i].0 == k {
        i
    } else {
        key_index(l, k, i + 1)
    }
}

/// The table-to-alias list of a list of table entries: tables in order of
/// first appearance, each with the alias of its last entry.
pub open spec fn alias_list(entries: Seq<Seq<char>>) -> Seq<(Seq<char>, Seq<char>)>
    decreases entries.len(),
{
    if entries.len() == 0 {
        seq![]
    } else {
        let prev = alias_list(entries.drop_last());
        let t = entry_table(entries.last());
        let a = entry_alias(entries.last());
        let j = key_index(prev, t, 0);
        if j < 0 {
            prev.push((t, a))
        } else {
            prev.update(j, (t, a))
        }
    }
}

/// The character contents of each pair of strings.
pub open spec fn pair_views(v: Seq<(String, String)>) -> Seq<(Seq<char>, Seq<char>)> {
    v.map_values(|p: (String, String)| (p.0@, p.1@))
}

/// Whether `q` is one of the tables of `l`.
pub open spec fn has_table(l: Seq<(Seq<char>, Seq<char>)>, q: Seq<char>) -> bool
    decreases l.len(),
{
    l.len() > 0 && (l.last().0 == q || has_table(l.drop_last(), q))
}

/// How many tables of `l` have the alias `q`.
pub open spec fn alias_count(l: Seq<(Seq<char>, Seq<char>)>, q: Seq<char>) -> nat
    decreases l.len(),
{
    if l.len() == 0 {
        0
    } else {
        alias_count(l.drop_last(), q) + if l.last().1 == q {
            1nat
        } else {
            0nat
        }
    }
}

/// The last table of `l` with the alias `q`.
pub open spec fn alias_owner(l: Seq<(Seq<char>, Seq<char>)>, q: Seq<char>) -> Seq<char>
    decreases l.len(),
{
    if l.len() == 0 {
        seq![]
    } else if l.last().1 == q {
        l.last().0
    } else {
        alias_owner(l.drop_last(), q)
    }
}

/// A qualifier resolved against the table-to-alias list: kept where it names
/// a table, the table's name where it is the alias of exactly one table, and
/// kept otherwise.
pub open spec fn resolve_qualifier(l: Seq<(Seq<char>, Seq<char>)>, q: Seq<char>) -> Seq<char> {
    if has_table(l, q) {
        q
    } else if alias_count(l, q) == 1 {
        alias_owner(l, q)
    } else {
        q
    }
}

/// A `qualifier.column` reference with its qualifier resolved; a reference
/// without a dot is kept as it is.
pub open spec fn resolve_reference(l: Seq<(Seq<char>, Seq<char>)>, r: Seq<char>) -> Seq<char> {
    match split_at_first(r, '.') {
        Some((q, c)) => resolve_qualifier(l, q) + seq!['.'] + c,
        None => r,
    }
}

/// The (table, column) pairs of the references that hold a dot.
pub open spec fn reference_pairs(rs: Seq<Seq<char>>) -> Seq<(Seq<char>, Seq<char>)>
    decreases rs.len(),
{
    if rs.len() == 0 {
        seq![]
    } else {
        let prev = reference_pairs(rs.drop_last());
        match split_at_first(rs.last(), '.') {
            Some(p) => prev.push(p),
            None => prev,
        }
    }
}

/// The (table, column) pairs that one query contributes: its resolved quoted
/// references, or where it has none, the tokenizing fallback.
pub open spec fn query_pairs(q: &Query) -> Seq<(Seq<char>, Seq<char>)> {
    let refs = column_references(q);
    if refs.len() == 0 {
        let t = fallback_table(q.query_text@);
        fallback_columns(q.query_text@).map_values(|c: Seq<char>| (t, c))
    } else {
        let l = alias_list(split_on(q.tables@, list_sep()));
        reference_pairs(refs.map_values(|r: Seq<char>| resolve_reference(l, r)))
    }
}

/// The (table, column) pairs of a batch of queries, in order.
pub open spec fn batch_pairs(qs: Seq<Query>) -> Seq<(Seq<char>, Seq<char>)>
    decreases qs.len(),
{
    if qs.len() == 0 {
        seq![]
    } else {
        batch_pairs(qs.drop_last()) + query_pairs(&qs.last())
    }
}

/// Whether some pair of `ps` has the table `t`.
pub open spec fn pairs_have_table(ps: Seq<(Seq<char>, Seq<char>)>, t: Seq<char>) -> bool {
    exists|k: int| 0 <= k < ps.len() && ps[k].0 == t
}

/// `inv` is the inventory of the pairs `ps`: tables in ascending order, each
/// once, exactly those of the pairs; each with its columns in ascending
/// order, exactly those paired with it.
pub open spec fn is_inventory_of(inv: Seq<Data>, ps: Seq<(Seq<char>, Seq<char>)>) -> bool {
    &&& forall|i: int, j: int|
        0 <= i < j < inv.len() ==> crate::order::seq_lt(inv[i].table_name@, inv[j].table_name@)
    &&& forall|t: Seq<char>|
        pairs_have_table(ps, t) <==> exists|i: int| 0 <= i < inv.len() && inv[i].table_name@ == t
    &&& forall|i: int|
        0 <= i < inv.len() ==> {
            &&& sorted_strictly(views(inv[i].columns@))
            &&& forall|c: Seq<char>|
                views(inv[i].columns@).contains(c) <==> ps.contains((inv[i].table_name@, c))
        }
}

/// The canonical table name and alias of one table entry.
fn parse_entry(e: &String) -> (r: (String, String))
    ensures
        r.0@ == entry_table(e@),
        r.1@ == entry_alias(e@),
{
    proof {
        reveal_strlit(" as ");
        reveal_strlit("[]\"");
        lemma_split_from_nonempty(e@, alias_sep(), 0, 0);
    }
    let parts = split_str(e.as_str(), " as ");
    assert(" as "@ =~= alias_sep());
    let delims = crate::text::chars_of("[]\"");
    assert(delims@ =~= delimiters());
    assert(views(parts@)[0] == parts@[0]@);
    let pre = trim_chars(parts[0].as_str(), &delims);
    let seg = last_segment_str(pre.as_str(), '.');
    let table = trim_chars(seg.as_str(), &delims);
    let alias = if parts.len() > 1 {
        assert(views(parts@)[1] == parts@[1]@);
        trim_chars(parts[1].as_str(), &delims)
    } else {
        String::new()
    };
    (table, alias)
}

/// The first index of a pair whose table is `k`.
fn find_key(l: &Vec<(String, String)>, k: &String) -> (r: Option<usize>)
    ensures
        match r {
            Some(j) => key_index(pair_views(l@), k@, 0) == j && j < l@.len(),
            None => key_index(pair_views(l@), k@, 0) == -1,
        },
{
    let mut i: usize = 0;
    while i < l.len()
        invariant
            i <= l@.len(),
            key_index(pair_views(l@), k@, i as int) == key_index(pair_views(l@), k@, 0),
        decreases l@.len() - i,
    {
        assert(pair_views(l@)[i as int].0 == l@[i as int].0@);
        if l[i].0 == *k {
            return Some(i);
        }
        i = i + 1;
    }
    None
}

/// Maps each table entry's canonical table name to its alias (empty where
/// it has none); a later entry for the same table replaces the earlier.
pub fn table_name_aliases(tables: Vec<String>) -> (r: Vec<(String, String)>)
    ensures
        pair_views(r@) == alias_list(views(tables@)),
{
    let mut r: Vec<(String, String)> = Vec::new();
    let mut i: usize = 0;
    while i < tables.len()
        invariant
            i <= tables@.len(),
            pair_views(r@) == alias_list(views(tables@).subrange(0, i as int)),
        decreases tables@.len() - i,
    {
        let ghost sub = views(tables@).subrange(0, i + 1);
        assert(sub.drop_last() =~= views(tables@).subrange(0, i as int));
        assert(sub.last() == tables@[i as int]@);
        let (t, a) = parse_entry(&tables[i]);
        match find_key(&r, &t) {
            Some(j) => {
                r.set(j, (t, a));
                assert(pair_views(r@) =~= alias_list(sub));
            },
            None => {
                r.push((t, a));
                assert(pair_views(r@) =~= alias_list(sub));
            },
        }
        i = i + 1;
    }
    assert(views(tables@).subrange(0, i as int) =~= views(tables@));
    r
}

/// Resolves one qualifier against the table-to-alias list.
fn resolve_qualifier_exec(l: &Vec<(String, String)>, q: &String) -> (r: String)
    ensures
        r@ == resolve_qualifier(pair_views(l@), q@),
{
    let mut found = false;
    let mut count: usize = 0;
    let mut owner = String::new();
    let mut i: usize = 0;
    while i < l.len()
        invariant
            i <= l@.len(),
            count <= i,
            found == has_table(pair_views(l@).subrange(0, i as int), q@),
            count == alias_count(pair_views(l@).subrange(0, i as int), q@),
            owner@ == alias_owner(pair_views(l@).subrange(0, i as int), q@),
        decreases l@.len() - i,
    {
        let ghost sub = pair_views(l@).subrange(0, i + 1);
        assert(sub.drop_last() =~= pair_views(l@).subrange(0, i as int));
        assert(sub.last() == (l@[i as int].0@, l@[i as int].1@));
        if l[i].0 == *q {
            found = true;
        }
        if l[i].1 == *q {
            count = count + 1;
            owner = l[i].0.clone();
        }
        i = i + 1;
    }
    assert(pair_views(l@).subrange(0, i as int) =~= pair_views(l@));
    if found {
        q.clone()
    } else if count == 1 {
        owner
    } else {
        q.clone()
    }
}

/// Resolves one `qualifier.column` reference against the alias list.
fn resolve_reference_exec(l: &Vec<(String, String)>, r: &String) -> (x: String)
    ensures
        x@ == resolve_reference(pair_views(l@), r@),
{
    match split_first_str(r.as_str(), '.') {
        Some((q, c)) => {
            let t = resolve_qualifier_exec(l, &q);
            proof {
                reveal_strlit(".");
            }
            let joined = t.concat(".").concat(c.as_str());
            assert(joined@ =~= t@ + seq!['.'] + c@);
            joined
        },
        None => r.clone(),
    }
}

/// Rewrites the qualifier of each `qualifier.column` reference to its
/// canonical table name, keeping the order of the references.
pub fn replace_aliases(columns: Vec<String>, table_aliases: &Vec<(String, String)>) -> (r: Vec<String>)
    ensures
        views(r@) == views(columns@).map_values(
            |x: Seq<char>| resolve_reference(pair_views(table_aliases@), x),
        ),
{
    let ghost l = pair_views(table_aliases@);
    let mut r: Vec<String> = Vec::new();
    let mut i: usize = 0;
    while i < columns.len()
        invariant
            i <= columns@.len(),
            l == pair_views(table_aliases@),
            views(r@) == views(columns@).subrange(0, i as int).map_values(
                |x: Seq<char>| resolve_reference(l, x),
            ),
        decreases columns@.len() - i,
    {
        let x = resolve_reference_exec(table_aliases, &columns[i]);
        assert(views(columns@)[i as int] == columns@[i as int]@);
        assert(views(r@.push(x)) =~= views(r@).push(x@));
        assert(views(r@).push(x@) =~= views(columns@).subrange(0, i + 1).map_values(
            |x: Seq<char>| resolve_reference(l, x),
        ));
        r.push(x);
        i = i + 1;
    }
    assert(views(columns@).subrange(0, i as int) =~= views(columns@));
    r
}

/// Appends to `out` the (table, column) pairs of one query.
fn add_query_pairs(q: &Query, out: &mut Vec<(String, String)>)
    ensures
        pair_views(final(out)@) == pair_views(old(out)@) + query_pairs(q),
{
    let ghost start = pair_views(out@);
    let refs = q.columns();
    if refs.len() == 0 {
        let ts = q.tables_query_text();
        let cols = q.columns_query_text();
        assert(views(ts@).len() == ts@.len());
        assert(views(ts@)[0] == ts@[0]@);
        let t = &ts[0];
        let ghost tv = t@;
        let mut i: usize = 0;
        while i < cols.len()
            invariant
                i <= cols@.len(),
                tv == t@,
                pair_views(out@) == start + views(cols@).subrange(0, i as int).map_values(
                    |c: Seq<char>| (tv, c),
                ),
            decreases cols@.len() - i,
        {
            let pair = (t.clone(), cols[i].clone());
            assert(views(cols@)[i as int] == cols@[i as int]@);
            assert(pair_views(out@.push(pair)) =~= pair_views(out@).push((pair.0@, pair.1@)));
            assert(views(cols@).subrange(0, i + 1).map_values(|c: Seq<char>| (tv, c)) =~= views(
                cols@,
            ).subrange(0, i as int).map_values(|c: Seq<char>| (tv, c)).push((tv, cols@[i as int]@)));
            out.push(pair);
            i = i + 1;
        }
        assert(views(cols@).subrange(0, i as int) =~= views(cols@));
    } else {
        let entries = q.tables();
        let aliases = table_name_aliases(entries);
        let resolved = replace_aliases(refs, &aliases);
        let ghost rv = views(resolved@);
        let mut i: usize = 0;
        while i < resolved.len()
            invariant
                i <= resolved@.len(),
                rv == views(resolved@),
                pair_views(out@) == start + reference_pairs(rv.subrange(0, i as int)),
            decreases resolved@.len() - i,
        {
            let ghost sub = rv.subrange(0, i + 1);
            assert(sub.drop_last() =~= rv.subrange(0, i as int));
            assert(sub.last() == resolved@[i as int]@);
            match split_first_str(resolved[i].as_str(), '.') {
                Some(pair) => {
                    assert(pair_views(out@.push(pair)) =~= pair_views(out@).push((pair.0@, pair.1@)));
                    out.push(pair);
                    assert(pair_views(out@) =~= start + reference_pairs(sub));
                },
                None => {},
            }
            i = i + 1;
        }
        assert(rv.subrange(0, i as int) =~= rv);
    }
}

/// Builds the inventory of a batch of queries: every table that a query
/// refers to, in ascending order, each with its distinct columns in
/// ascending order.
pub fn process_queries(queries: Vec<Query>) -> (r: Vec<Data>)
    ensures
        is_inventory_of(r@, batch_pairs(queries@)),
{
    let mut pairs: Vec<(String, String)> = Vec::new();
    let mut i: usize = 0;
    while i < queries.len()
        invariant
            i <= queries@.len(),
            pair_views(pairs@) == batch_pairs(queries@.subrange(0, i as int)),
        decreases queries@.len() - i,
    {
        assert(queries@.subrange(0, i + 1).drop_last() =~= queries@.subrange(0, i as int));
        add_query_pairs(&queries[i], &mut pairs);
        i = i + 1;
    }
    assert(queries@.subrange(0, i as int) =~= queries@);
    let ghost ps = pair_views(pairs@);
    let mut tables: Vec<String> = Vec::new();
    let mut k: usize = 0;
    while k < pairs.len()
        invariant
            k <= pairs@.len(),
            ps == pair_views(pairs@),
            sorted_strictly(views(tables@)),
            forall|t: Seq<char>|
                views(tables@).contains(t) <==> pairs_have_table(ps.subrange(0, k as int), t),
        decreases pairs@.len() - k,
    {
        let name = pairs[k].0.clone();
        insert_sorted(&mut tables, name);
        let ghost sub1 = ps.subrange(0, k + 1);
        let ghost sub0 = ps.subrange(0, k as int);
        assert forall|t: Seq<char>|
            views(tables@).contains(t) <==> pairs_have_table(sub1, t) by {
            if pairs_have_table(sub1, t) {
                let w = choose|w: int| 0 <= w < sub1.len() && #[trigger] sub1[w].0 == t;
                if w < k {
                    assert(sub0[w].0 == t);
                }
            }
            if pairs_have_table(sub0, t) {
                let w = choose|w: int| 0 <= w < sub0.len() && #[trigger] sub0[w].0 == t;
                assert(sub1[w].0 == t);
            }
            if t == ps[k as int].0 {
                assert(sub1[k as int].0 == t);
            }
        }
        k = k + 1;
    }
    assert(ps.subrange(0, k as int) =~= ps);
    let mut r: Vec<Data> = Vec::new();
    let mut ti: usize = 0;
    while ti < tables.len()
        invariant
            ti <= tables@.len(),
            ps == pair_views(pairs@),
            sorted_strictly(views(tables@)),
            forall|t: Seq<char>| views(tables@).contains(t) <==> pairs_have_table(ps, t),
            r@.len() == ti,
            forall|i: int| 0 <= i < ti ==> r@[i].table_name@ == views(tables@)[i],
            forall|i: int|
                0 <= i < ti ==> {
                    &&& sorted_strictly(views(r@[i].columns@))
                    &&& forall|c: Seq<char>|
                        views(r@[i].columns@).contains(c) <==> ps.contains((r@[i].table_name@, c))
                },
        decreases tables@.len() - ti,
    {
        let name = tables[ti].clone();
        let mut cols: Vec<String> = Vec::new();
        let mut k: usize = 0;
        while k < pairs.len()
            invariant
                k <= pairs@.len(),
                ps == pair_views(pairs@),
                sorted_strictly(views(cols@)),
                forall|c: Seq<char>|
                    views(cols@).contains(c) <==> ps.subrange(0, k as int).contains((name@, c)),
            decreases pairs@.len() - k,
        {
            let is_table = pairs[k].0 == name;
            if is_table {
                insert_sorted(&mut cols, pairs[k].1.clone());
            }
            let ghost sub1 = ps.subrange(0, k + 1);
            let ghost sub0 = ps.subrange(0, k as int);
            assert forall|c: Seq<char>|
                views(cols@).contains(c) <==> sub1.contains((name@, c)) by {
                if sub1.contains((name@, c)) {
                    let w = choose|w: int| 0 <= w < sub1.len() && #[trigger] sub1[w] == (name@, c);
                    if w < k {
                        assert(sub0[w] == (name@, c));
                    }
                }
                if sub0.contains((name@, c)) {
                    let w = choose|w: int| 0 <= w < sub0.len() && #[trigger] sub0[w] == (name@, c);
                    assert(sub1[w] == (name@, c));
                }
                if is_table && c == pairs@[k as int].1@ {
                    assert(sub1[k as int] == (name@, c));
                }
            }
            k = k + 1;
        }
        assert(ps.subrange(0, k as int) =~= ps);
        r.push(Data { table_name: name, columns: cols });
        ti = ti + 1;
    }
    assert forall|t: Seq<char>|
        pairs_have_table(ps, t) <==> exists|i: int| 0 <= i < r@.len() && r@[i].table_name@ == t by {
        if views(tables@).contains(t) {
            let i = choose|i: int| 0 <= i < views(tables@).len() && views(tables@)[i] == t;
            assert(r@[i].table_name@ == t);
        }
        if exists|i: int| 0 <= i < r@.len() && r@[i].table_name@ == t {
            let i = choose|i: int| 0 <= i < r@.len() && r@[i].table_name@ == t;
            assert(views(tables@)[i] == t);
        }
    }
    assert forall|i: int, j: int| 0 <= i < j < r@.len() implies crate::order::seq_lt(
        r@[i].table_name@,
        r@[j].table_name@,
    ) by {
        assert(views(tables@)[i] == r@[i].table_name@);
        assert(views(tables@)[j] == r@[j].table_name@);
    }
    r
}

} // verus!
