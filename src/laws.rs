//! Properties of the inventory and of the overlap measure that hold for
//! every input.

use vstd::prelude::*;
use crate::inference::{jaccard, shows_group, GroupModel, TableGroup};
use crate::order::{lemma_lt_irreflexive, lemma_lt_transitive, seq_lt, sorted_strictly};
use crate::processor::{
    alias_list, alias_sep, delimiters, entry_alias, entry_table, is_inventory_of, key_index,
    pairs_have_table, Data,
};
use crate::text::{
    last_index_of, last_segment, occurs_at, split_from, split_on, trim_end, trim_set, trim_start,
    views,
};

verus! {

/// The overlap of two column sets does not depend on their order.
pub proof fn lemma_jaccard_symmetric(a: Set<Seq<char>>, b: Set<Seq<char>>)
    ensures
        jaccard(a, b) == jaccard(b, a),
{
    assert(a.intersect(b) =~= b.intersect(a));
    assert(a.union(b) =~= b.union(a));
}

/// A non-empty column set overlaps itself fully: shared and total agree, so
/// the overlap is 1.
pub proof fn lemma_jaccard_self(a: Set<Seq<char>>)
    requires
        a.finite(),
        a.len() > 0,
    ensures
        jaccard(a, a).0 == jaccard(a, a).1,
        jaccard(a, a).1 > 0,
{
    assert(a.intersect(a) =~= a);
    assert(a.union(a) =~= a);
}

/// Aggregating the same (table, column) pairs twice gives the same
/// inventory as aggregating them once: columns merged with themselves stay
/// as they were.
pub proof fn lemma_inventory_idempotent(inv: Seq<Data>, ps: Seq<(Seq<char>, Seq<char>)>)
    requires
        is_inventory_of(inv, ps),
    ensures
        is_inventory_of(inv, ps + ps),
{
    let qs = ps + ps;
    assert forall|t: Seq<char>| pairs_have_table(qs, t) <==> pairs_have_table(ps, t) by {
        if pairs_have_table(qs, t) {
            let k = choose|k: int| 0 <= k < qs.len() && #[trigger] qs[k].0 == t;
            if k >= ps.len() {
                assert(ps[k - ps.len()].0 == t);
            }
        }
        if pairs_have_table(ps, t) {
            let k = choose|k: int| 0 <= k < ps.len() && #[trigger] ps[k].0 == t;
            assert(qs[k].0 == t);
        }
    }
    assert forall|p: (Seq<char>, Seq<char>)| qs.contains(p) <==> ps.contains(p) by {
        if qs.contains(p) {
            let k = choose|k: int| 0 <= k < qs.len() && qs[k] == p;
            if k >= ps.len() {
                assert(ps[k - ps.len()] == p);
            }
        }
        if ps.contains(p) {
            let k = choose|k: int| 0 <= k < ps.len() && ps[k] == p;
            assert(qs[k] == p);
        }
    }
}

/// Two strictly sorted sequences with the same elements are equal.
pub proof fn lemma_sorted_unique(a: Seq<Seq<char>>, b: Seq<Seq<char>>)
    requires
        sorted_strictly(a),
        sorted_strictly(b),
        forall|x: Seq<char>| a.contains(x) <==> b.contains(x),
    ensures
        a == b,
    decreases a.len(),
{
    if a.len() == 0 {
        if b.len() > 0 {
            assert(b.contains(b[0]));
        }
        assert(a =~= b);
    } else if b.len() == 0 {
        assert(a.contains(a[0]));
    } else {
        assert(a.contains(a[0]));
        assert(b.contains(b[0]));
        let i = choose|i: int| 0 <= i < b.len() && b[i] == a[0];
        let j = choose|j: int| 0 <= j < a.len() && a[j] == b[0];
        if i > 0 && j > 0 {
            lemma_lt_transitive(a[0], a[j], a[0]);
            lemma_lt_irreflexive(a[0]);
        }
        if i > 0 && j == 0 {
            lemma_lt_irreflexive(b[0]);
        }
        if i == 0 && j > 0 {
            lemma_lt_irreflexive(a[0]);
        }
        assert(a[0] == b[0]);
        let a1 = a.drop_first();
        let b1 = b.drop_first();
        assert forall|x: Seq<char>| a1.contains(x) <==> b1.contains(x) by {
            if a1.contains(x) {
                let k = choose|k: int| 0 <= k < a1.len() && a1[k] == x;
                assert(a[k + 1] == x);
                assert(seq_lt(a[0], x));
                lemma_lt_irreflexive(x);
                assert(b.contains(x));
                let m = choose|m: int| 0 <= m < b.len() && b[m] == x;
                assert(m != 0);
                assert(b1[m - 1] == x);
            }
            if b1.contains(x) {
                let k = choose|k: int| 0 <= k < b1.len() && b1[k] == x;
                assert(b[k + 1] == x);
                assert(seq_lt(b[0], x));
                lemma_lt_irreflexive(x);
                assert(a.contains(x));
                let m = choose|m: int| 0 <= m < a.len() && a[m] == x;
                assert(m != 0);
                assert(a1[m - 1] == x);
            }
        }
        lemma_sorted_unique(a1, b1);
        assert(a =~= seq![a[0]] + a1);
        assert(b =~= seq![b[0]] + b1);
    }
}

/// The table names of an inventory.
pub open spec fn table_names(inv: Seq<Data>) -> Seq<Seq<char>> {
    inv.map_values(|d: Data| d.table_name@)
}

/// An inventory is determined by its pairs: any two inventories of the same
/// pairs list the same tables in the same order, with the same columns in
/// the same order.
pub proof fn lemma_inventory_determined(x: Seq<Data>, y: Seq<Data>, ps: Seq<(Seq<char>, Seq<char>)>)
    requires
        is_inventory_of(x, ps),
        is_inventory_of(y, ps),
    ensures
        table_names(x) == table_names(y),
        forall|i: int| 0 <= i < x.len() ==> views(#[trigger] x[i].columns@) == views(y[i].columns@),
{
    let tx = table_names(x);
    let ty = table_names(y);
    assert forall|t: Seq<char>| tx.contains(t) <==> ty.contains(t) by {
        if tx.contains(t) {
            let i = choose|i: int| 0 <= i < tx.len() && tx[i] == t;
            assert(x[i].table_name@ == t);
            assert(pairs_have_table(ps, t));
            let j = choose|j: int| 0 <= j < y.len() && y[j].table_name@ == t;
            assert(ty[j] == t);
        }
        if ty.contains(t) {
            let i = choose|i: int| 0 <= i < ty.len() && ty[i] == t;
            assert(y[i].table_name@ == t);
            assert(pairs_have_table(ps, t));
            let j = choose|j: int| 0 <= j < x.len() && x[j].table_name@ == t;
            assert(tx[j] == t);
        }
    }
    lemma_sorted_unique(tx, ty);
    assert forall|i: int| 0 <= i < x.len() implies views(#[trigger] x[i].columns@) == views(y[i].columns@) by {
        assert(tx[i] == ty[i]);
        lemma_sorted_unique(views(x[i].columns@), views(y[i].columns@));
    }
}

/// Groups are determined by the group values they show: two outputs that
/// show the same groups hold the same members, shared columns and scores.
pub proof fn lemma_groups_determined(x: Seq<TableGroup>, y: Seq<TableGroup>, gs: Seq<GroupModel>)
    requires
        x.len() == gs.len(),
        y.len() == gs.len(),
        forall|i: int| 0 <= i < gs.len() ==> shows_group(#[trigger] x[i], gs[i]),
        forall|i: int| 0 <= i < gs.len() ==> shows_group(#[trigger] y[i], gs[i]),
    ensures
        forall|i: int|
            0 <= i < x.len() ==> {
                &&& views(#[trigger] x[i].similar_tables@) == views(y[i].similar_tables@)
                &&& views(x[i].shared_columns@) == views(y[i].shared_columns@)
                &&& x[i].similarity_score@ == y[i].similarity_score@
            },
{
    assert forall|i: int| 0 <= i < x.len() implies {
        &&& views(#[trigger] x[i].similar_tables@) == views(y[i].similar_tables@)
        &&& views(x[i].shared_columns@) == views(y[i].shared_columns@)
        &&& x[i].similarity_score@ == y[i].similarity_score@
    } by {
        assert(shows_group(x[i], gs[i]));
        assert(shows_group(y[i], gs[i]));
    }
}

/// A name without brackets, quotes, dots or spaces.
pub open spec fn plain_name(x: Seq<char>) -> bool {
    forall|i: int|
        0 <= i < x.len() ==> x[i] != '[' && x[i] != ']' && x[i] != '"' && x[i] != '.' && x[i] != ' '
}

/// The table entry `[s].[t]`.
pub open spec fn bracketed(s: Seq<char>, t: Seq<char>) -> Seq<char> {
    seq!['['] + s + seq![']', '.', '['] + t + seq![']']
}

proof fn lemma_split_skip(e: Seq<char>, sep: Seq<char>, start: int, k: int, m: int)
    requires
        0 <= k <= m,
        sep.len() > 0,
        forall|j: int| k <= j < m ==> !occurs_at(e, sep, j),
    ensures
        split_from(e, sep, start, k) == split_from(e, sep, start, m),
    decreases m - k,
{
    if k < m && k + sep.len() <= e.len() {
        lemma_split_skip(e, sep, start, k + 1, m);
    }
}

proof fn lemma_last_index_skip(x: Seq<char>, c: char, m: int, k: int)
    requires
        0 <= m <= k <= x.len(),
        forall|j: int| m <= j < k ==> x[j] != c,
    ensures
        last_index_of(x, c, k) == last_index_of(x, c, m),
    decreases k - m,
{
    if m < k {
        lemma_last_index_skip(x, c, m, k - 1);
    }
}

/// A plain name is kept whole when delimiters are trimmed.
proof fn lemma_trim_plain(x: Seq<char>)
    requires
        plain_name(x),
    ensures
        trim_set(x, delimiters()) == x,
{
    if x.len() > 0 {
        assert(!delimiters().contains(x[0]));
        assert(!delimiters().contains(x.last()));
    }
}

/// The canonical table name of `[s].[t]` followed by anything that starts
/// with a space is `t`.
proof fn lemma_bracketed_table(s: Seq<char>, t: Seq<char>)
    requires
        plain_name(s),
        plain_name(t),
        s.len() > 0,
        t.len() > 0,
    ensures
        trim_set(last_segment(trim_set(bracketed(s, t), delimiters()), '.'), delimiters()) == t,
{
    let d = delimiters();
    let p = bracketed(s, t);
    let p1 = s + seq![']', '.', '['] + t + seq![']'];
    let x = s + seq![']', '.', '['] + t;
    assert(p.drop_first() =~= p1);
    assert(d.contains(p[0]));
    assert(!d.contains(p1[0]));
    assert(trim_start(p1, d) == p1);
    assert(trim_start(p, d) == p1);
    assert(p1.drop_last() =~= x);
    assert(d.contains(p1.last()));
    assert(!d.contains(x.last()));
    assert(trim_end(x, d) == x);
    assert(trim_set(p, d) == x);
    let m = s.len() as int;
    lemma_last_index_skip(x, '.', m + 2, x.len() as int);
    assert(x[m + 1] == '.');
    assert(last_index_of(x, '.', m + 2) == m + 1);
    let seg = seq!['['] + t;
    assert(last_segment(x, '.') =~= seg);
    assert(seg.drop_first() =~= t);
    assert(d.contains(seg[0]));
    assert(!d.contains(t[0]));
    assert(trim_start(t, d) == t);
    assert(trim_start(seg, d) == t);
    assert(!d.contains(t.last()));
    assert(trim_end(t, d) == t);
}

/// A table entry `[s].[t] as a` resolves to the table `t` with the alias
/// `a`, and `[s].[t]` to the table `t` with an empty alias, for plain
/// names `s`, `t` and `a`.
pub proof fn lemma_entry_resolution(s: Seq<char>, t: Seq<char>, a: Seq<char>)
    requires
        plain_name(s),
        plain_name(t),
        plain_name(a),
        s.len() > 0,
        t.len() > 0,
    ensures
        alias_list(seq![bracketed(s, t) + alias_sep() + a]) == seq![(t, a)],
        alias_list(seq![bracketed(s, t)]) == seq![(t, Seq::<char>::empty())],
{
    let sep = alias_sep();
    let p = bracketed(s, t);
    let n = p.len() as int;
    assert forall|j: int| 0 <= j < n implies p[j] != ' ' by {
        if 1 <= j < 1 + s.len() {
            assert(p[j] == s[j - 1]);
        } else if s.len() + 4 <= j < s.len() + 4 + t.len() {
            assert(p[j] == t[j - s.len() - 4]);
        }
    }
    // With an alias.
    let e = p + sep + a;
    assert forall|j: int| 0 <= j < n implies !occurs_at(e, sep, j) by {
        if occurs_at(e, sep, j) {
            assert(e.subrange(j, j + 4)[0] == e[j]);
            assert(e[j] == p[j]);
        }
    }
    lemma_split_skip(e, sep, 0, 0, n);
    assert(e.subrange(n, n + 4) =~= sep);
    assert(occurs_at(e, sep, n));
    assert forall|j: int| n + 4 <= j < e.len() implies !occurs_at(e, sep, j) by {
        if occurs_at(e, sep, j) {
            assert(e.subrange(j, j + 4)[0] == e[j]);
            assert(e[j] == a[j - n - 4]);
        }
    }
    lemma_split_skip(e, sep, n + 4, n + 4, e.len() as int);
    assert(e.subrange(0, n) =~= p);
    assert(e.subrange(n + 4, e.len() as int) =~= a);
    assert(split_on(e, sep) =~= seq![p, a]);
    lemma_bracketed_table(s, t);
    lemma_trim_plain(a);
    assert(entry_table(e) == t);
    assert(entry_alias(e) == a);
    assert(seq![e].drop_last() =~= Seq::<Seq<char>>::empty());
    assert(key_index(Seq::<(Seq<char>, Seq<char>)>::empty(), t, 0) == -1);
    let le = seq![e];
    assert(le.len() == 1 && le.last() == e);
    assert(alias_list(le.drop_last()) == Seq::<(Seq<char>, Seq<char>)>::empty());
    assert(alias_list(le) =~= seq![(t, a)]);
    // Without an alias.
    assert forall|j: int| 0 <= j < n implies !occurs_at(p, sep, j) by {
        if occurs_at(p, sep, j) {
            assert(p.subrange(j, j + 4)[0] == p[j]);
        }
    }
    lemma_split_skip(p, sep, 0, 0, n);
    assert(p.subrange(0, n) =~= p);
    assert(split_on(p, sep) =~= seq![p]);
    assert(entry_table(p) == t);
    assert(entry_alias(p) == Seq::<char>::empty());
    assert(seq![p].drop_last() =~= Seq::<Seq<char>>::empty());
    let lp = seq![p];
    assert(lp.len() == 1 && lp.last() == p);
    assert(alias_list(lp.drop_last()) == Seq::<(Seq<char>, Seq<char>)>::empty());
    assert(alias_list(lp) =~= seq![(t, Seq::<char>::empty())]);
}

} // verus!
