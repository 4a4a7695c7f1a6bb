//! Greedy first-fit grouping of tables by the Jaccard overlap of their
//! column sets.

use vstd::prelude::*;
use vstd::string::*;
use crate::processor::Data;
use crate::text::views;

verus! {

broadcast use vstd::seq_lib::seq_to_set_is_finite;

/// The groups of similar tables found in an inventory.
#[derive(Debug)]
pub struct SimilarTables {
    pub grouped_tables: Vec<TableGroup>,
}

/// Tables grouped together, the columns of the table that founded the group,
/// and the mean overlap of the later members, with two decimals.
#[derive(Debug)]
pub struct TableGroup {
    pub similar_tables: Vec<String>,
    pub shared_columns: Vec<String>,
    pub similarity_score: String,
}

/// A group as a value: the founder's columns, the members in order of
/// joining, and the overlap (shared, total) with which each later member
/// joined.
pub type GroupModel = (Seq<Seq<char>>, Seq<Seq<char>>, Seq<(nat, nat)>);

/// The Jaccard overlap of two column sets, as the pair (size of the
/// intersection, size of the union).
pub open spec fn jaccard(a: Set<Seq<char>>, b: Set<Seq<char>>) -> (nat, nat) {
    (a.intersect(b).len(), a.union(b).len())
}

/// The overlap `o` reaches the threshold `num / den`; an overlap of two
/// empty sets reaches none.
pub open spec fn meets_threshold(o: (nat, nat), num: nat, den: nat) -> bool {
    o.1 > 0 && o.0 * den >= num * o.1
}

/// Index of the first group at or after `k` whose founder's columns overlap
/// `cols` enough, or -1.
pub open spec fn first_fit(gs: Seq<GroupModel>, cols: Set<Seq<char>>, num: nat, den: nat, k: int) -> int
    decreases gs.len() - k,
{
    if k < 0 || k >= gs.len() {
        -1
    } else if meets_threshold(jaccard(cols, gs[k].0.to_set()), num, den) {
        k
    } else {
        first_fit(gs, cols, num, den, k + 1)
    }
}

/// The groups after one more table: it joins the first group that fits,
/// or founds a new one.
pub open spec fn group_step(gs: Seq<GroupModel>, e: (Seq<char>, Seq<Seq<char>>), num: nat, den: nat) -> Seq<GroupModel> {
    let g = first_fit(gs, e.1.to_set(), num, den, 0);
    if g < 0 {
        gs.push((e.1, seq![e.0], seq![]))
    } else {
        gs.update(
            g,
            (gs[g].0, gs[g].1.push(e.0), gs[g].2.push(jaccard(e.1.to_set(), gs[g].0.to_set()))),
        )
    }
}

/// The groups formed by tables taken in order.
pub open spec fn grouping(es: Seq<(Seq<char>, Seq<Seq<char>>)>, num: nat, den: nat) -> Seq<GroupModel>
    decreases es.len(),
{
    if es.len() == 0 {
        seq![]
    } else {
        group_step(grouping(es.drop_last(), num, den), es.last(), num, den)
    }
}

/// The groups with at least two members, in order.
pub open spec fn kept(gs: Seq<GroupModel>) -> Seq<GroupModel>
    decreases gs.len(),
{
    if gs.len() == 0 {
        seq![]
    } else if gs.last().1.len() >= 2 {
        kept(gs.drop_last()).push(gs.last())
    } else {
        kept(gs.drop_last())
    }
}

/// The inventory entries as (table, columns) values.
pub open spec fn entries_of(ms: Seq<Data>) -> Seq<(Seq<char>, Seq<Seq<char>>)> {
    ms.map_values(|d: Data| (d.table_name@, views(d.columns@)))
}

/// The sum of the overlaps as a fraction (numerator, denominator), the
/// denominator being the product of their totals.
pub open spec fn overlap_sum(s: Seq<(nat, nat)>) -> (nat, nat)
    decreases s.len(),
{
    if s.len() == 0 {
        (0, 1)
    } else {
        let f = overlap_sum(s.drop_last());
        (f.0 * s.last().1 + s.last().0 * f.1, f.1 * s.last().1)
    }
}

/// `x / y` rounded to the nearest integer, a tie going to the even one.
pub open spec fn round_half_even(x: nat, y: nat) -> nat {
    let q = x / y;
    let r = x % y;
    if 2 * r > y {
        q + 1
    } else if 2 * r < y {
        q
    } else if q % 2 == 0 {
        q
    } else {
        q + 1
    }
}

/// The exact sum of the overlaps can be held in 128 bits, a hundred times
/// over for each overlap.
pub open spec fn sum_fits(s: Seq<(nat, nat)>) -> bool {
    100 * s.len() * overlap_sum(s).1 <= u128::MAX
}

/// An overlap in millionths, rounded down.
pub open spec fn millionths(o: (nat, nat)) -> nat {
    if o.1 == 0 {
        0
    } else {
        o.0 * 1000000 / o.1
    }
}

pub open spec fn sum_millionths(s: Seq<(nat, nat)>) -> nat
    decreases s.len(),
{
    if s.len() == 0 {
        0
    } else {
        sum_millionths(s.drop_last()) + millionths(s.last())
    }
}

/// The mean of the overlaps in hundredths: the exact mean rounded to the
/// nearest hundredth, a tie going to the even one. Where the exact sum does
/// not fit in 128 bits, the mean of the overlaps in millionths, rounded half
/// up.
pub open spec fn score_hundredths(s: Seq<(nat, nat)>) -> nat {
    if s.len() == 0 {
        0
    } else if sum_fits(s) {
        round_half_even(100 * overlap_sum(s).0, s.len() * overlap_sum(s).1)
    } else {
        (sum_millionths(s) / s.len() + 5000) / 10000
    }
}

pub open spec fn digit_char(d: nat) -> char {
    if d == 0 {
        '0'
    } else if d == 1 {
        '1'
    } else if d == 2 {
        '2'
    } else if d == 3 {
        '3'
    } else if d == 4 {
        '4'
    } else if d == 5 {
        '5'
    } else if d == 6 {
        '6'
    } else if d == 7 {
        '7'
    } else if d == 8 {
        '8'
    } else {
        '9'
    }
}

/// The decimal digits of `n`.
pub open spec fn decimal(n: nat) -> Seq<char>
    decreases n,
{
    if n < 10 {
        seq![digit_char(n)]
    } else {
        decimal(n / 10).push(digit_char(n % 10))
    }
}

/// A number of hundredths written with two decimals.
pub open spec fn two_decimals(h: nat) -> Seq<char> {
    decimal(h / 100) + seq!['.', digit_char(h % 100 / 10), digit_char(h % 10)]
}

/// `t` is the output form of the group `g`.
pub open spec fn shows_group(t: TableGroup, g: GroupModel) -> bool {
    &&& views(t.shared_columns@) == g.0
    &&& views(t.similar_tables@) == g.1
    &&& t.similarity_score@ == two_decimals(score_hundredths(g.2))
}

/// Whether `v[i]` already stands earlier in `v`.
fn occurs_before(v: &Vec<String>, i: usize) -> (r: bool)
    requires
        i < v@.len(),
    ensures
        r == views(v@).subrange(0, i as int).contains(v@[i as int]@),
{
    let ghost pre = views(v@).subrange(0, i as int);
    let mut j: usize = 0;
    while j < i
        invariant
            i < v@.len(),
            j <= i,
            pre == views(v@).subrange(0, i as int),
            forall|k: int| 0 <= k < j ==> pre[k] != v@[i as int]@,
        decreases i - j,
    {
        if v[j] == v[i] {
            assert(pre[j as int] == v@[i as int]@);
            return true;
        }
        j = j + 1;
    }
    false
}

/// The number of distinct strings of `a`, and how many of them `b` holds.
fn count_distinct_common(a: &Vec<String>, b: &Vec<String>) -> (r: (u128, u128))
    ensures
        r.0 == views(a@).to_set().len(),
        r.1 == views(a@).to_set().intersect(views(b@).to_set()).len(),
        r.0 <= a@.len(),
{
    let ghost av = views(a@);
    let ghost bs = views(b@).to_set();
    let mut d: u128 = 0;
    let mut c: u128 = 0;
    let mut i: usize = 0;
    assert(av.subrange(0, 0).to_set() =~= Set::empty());
    assert(Set::<Seq<char>>::empty().intersect(bs) =~= Set::empty());
    while i < a.len()
        invariant
            i <= a@.len(),
            av == views(a@),
            bs == views(b@).to_set(),
            c <= d <= i,
            d == av.subrange(0, i as int).to_set().len(),
            c == av.subrange(0, i as int).to_set().intersect(bs).len(),
        decreases a@.len() - i,
    {
        let ghost s0 = av.subrange(0, i as int).to_set();
        let ghost x = av[i as int];
        assert(av.subrange(0, i + 1) =~= av.subrange(0, i as int).push(x));
        proof {
            av.subrange(0, i as int).lemma_push_to_set_commute(x);
        }
        assert(x == a@[i as int]@);
        let seen = occurs_before(a, i);
        if seen {
            assert(s0.insert(x) =~= s0);
        } else {
            assert(!s0.contains(x));
            d = d + 1;
            if crate::query::contains_string(b, &a[i]) {
                assert(s0.insert(x).intersect(bs) =~= s0.intersect(bs).insert(x));
                c = c + 1;
            } else {
                assert(s0.insert(x).intersect(bs) =~= s0.intersect(bs));
            }
        }
        i = i + 1;
    }
    assert(av.subrange(0, i as int) =~= av);
    (d, c)
}

/// The Jaccard overlap of the column sets of `a` and `b`.
pub fn overlap(a: &Vec<String>, b: &Vec<String>) -> (r: (u128, u128))
    ensures
        (r.0 as nat, r.1 as nat) == jaccard(views(a@).to_set(), views(b@).to_set()),
        r.0 <= r.1,
        r.0 <= a@.len(),
        r.1 <= a@.len() + b@.len(),
{
    let ghost sa = views(a@).to_set();
    let ghost sb = views(b@).to_set();
    let la = a.len();
    let lb = b.len();
    let (da, common) = count_distinct_common(a, b);
    let (db, _) = count_distinct_common(b, a);
    proof {
        vstd::set_lib::lemma_set_intersect_union_lens(sa, sb);
        vstd::set_lib::lemma_len_subset(sa.intersect(sb), sa);
        vstd::set_lib::lemma_len_subset(sa.intersect(sb), sa + sb);
        assert(sa + sb == sa.union(sb));
    }
    (common, da + db - common)
}

/// Whether the overlap `o` reaches the threshold `num / den`.
pub fn meets(o: (u128, u128), num: u64, den: u64) -> (r: bool)
    requires
        o.0 <= u64::MAX,
    ensures
        r == meets_threshold((o.0 as nat, o.1 as nat), num as nat, den as nat),
{
    if o.1 == 0 {
        return false;
    }
    proof {
        assert(o.0 * (den as u128) <= u64::MAX * u64::MAX) by (nonlinear_arith)
            requires
                o.0 <= u64::MAX,
                den <= u64::MAX,
        ;
    }
    let lhs = o.0 * (den as u128);
    match (num as u128).checked_mul(o.1) {
        Some(rhs) => lhs >= rhs,
        None => false,
    }
}

/// A group while it is being built.
struct Group {
    columns: Vec<String>,
    members: Vec<String>,
    scores: Vec<(u128, u128)>,
}

spec fn group_view(g: Group) -> GroupModel {
    (views(g.columns@), views(g.members@), g.scores@.map_values(|p: (u128, u128)| (p.0 as nat, p.1 as nat)))
}

spec fn groups_view(gs: Seq<Group>) -> Seq<GroupModel> {
    gs.map_values(|g: Group| group_view(g))
}

/// An overlap has a non-zero total, no smaller than its shared part.
spec fn score_ok(p: (u128, u128)) -> bool {
    p.0 <= p.1 && 0 < p.1 && p.1 <= u64::MAX * 2
}

/// Every recorded overlap is well formed, a group holds no more overlaps
/// than `n`, and one fewer than its members.
spec fn scores_bounded(gs: Seq<Group>, n: nat) -> bool {
    &&& forall|g: int|
        0 <= g < gs.len() ==> #[trigger] gs[g].scores@.len() <= n && gs[g].members@.len()
            == gs[g].scores@.len() + 1
    &&& forall|g: int, k: int|
        0 <= g < gs.len() && 0 <= k < gs[g].scores@.len() ==> score_ok(#[trigger] gs[g].scores@[k])
}

proof fn lemma_millionths_bounded(a: nat, b: nat)
    requires
        a <= b,
        0 < b,
    ensures
        a * 1000000 / b <= 1000000,
{
    assert(a * 1000000 <= b * 1000000) by (nonlinear_arith)
        requires
            a <= b,
    ;
    vstd::arithmetic::div_mod::lemma_div_is_ordered((a * 1000000) as int, (b * 1000000) as int, b as int);
    vstd::arithmetic::div_mod::lemma_div_multiples_vanish(1000000, b as int);
    assert(b * 1000000 == 1000000 * b) by (nonlinear_arith);
}

/// The digit `d` as a string.
fn digit_str(d: u128) -> (r: &'static str)
    requires
        d < 10,
    ensures
        r@ == seq![digit_char(d as nat)],
{
    proof {
        reveal_strlit("0");
        reveal_strlit("1");
        reveal_strlit("2");
        reveal_strlit("3");
        reveal_strlit("4");
        reveal_strlit("5");
        reveal_strlit("6");
        reveal_strlit("7");
        reveal_strlit("8");
        reveal_strlit("9");
    }
    let r = if d == 0 {
        "0"
    } else if d == 1 {
        "1"
    } else if d == 2 {
        "2"
    } else if d == 3 {
        "3"
    } else if d == 4 {
        "4"
    } else if d == 5 {
        "5"
    } else if d == 6 {
        "6"
    } else if d == 7 {
        "7"
    } else if d == 8 {
        "8"
    } else {
        "9"
    };
    assert(r@ =~= seq![digit_char(d as nat)]);
    r
}

/// The decimal digits of `n`.
fn decimal_string(n: u128) -> (r: String)
    ensures
        r@ == decimal(n as nat),
{
    let mut rest: u128 = n;
    let mut s = String::new();
    while rest >= 10
        invariant
            decimal(rest as nat) + s@ == decimal(n as nat),
        decreases rest,
    {
        let d = digit_str(rest % 10);
        let next = String::from_str(d).concat(s.as_str());
        assert(decimal(rest as nat) == decimal((rest / 10) as nat).push(digit_char((rest % 10) as nat)));
        assert(decimal((rest / 10) as nat) + next@ =~= decimal(rest as nat) + s@);
        s = next;
        rest = rest / 10;
    }
    let r = String::from_str(digit_str(rest)).concat(s.as_str());
    assert(r@ =~= decimal(rest as nat) + s@);
    r
}

/// The mean of the overlaps in millionths, rounded half up to hundredths.
fn approximate_hundredths(scores: &Vec<(u128, u128)>) -> (h: u128)
    requires
        scores@.len() > 0,
        forall|k: int| 0 <= k < scores@.len() ==> score_ok(#[trigger] scores@[k]),
    ensures
        h == (sum_millionths(scores@.map_values(|p: (u128, u128)| (p.0 as nat, p.1 as nat)))
            / scores@.len() as nat + 5000) / 10000,
{
    let ghost sv = scores@.map_values(|p: (u128, u128)| (p.0 as nat, p.1 as nat));
    let n = scores.len();
    let mut sum: u128 = 0;
    let mut j: usize = 0;
    while j < n
        invariant
            n == scores@.len(),
            sv == scores@.map_values(|p: (u128, u128)| (p.0 as nat, p.1 as nat)),
            j <= n,
            sum == sum_millionths(sv.subrange(0, j as int)),
            sum <= j * 1000000,
            forall|k: int| 0 <= k < scores@.len() ==> score_ok(#[trigger] scores@[k]),
        decreases n - j,
    {
        let p = scores[j];
        proof {
            lemma_millionths_bounded(p.0 as nat, p.1 as nat);
            assert(p.0 * 1000000 <= u64::MAX * 2 * 1000000) by (nonlinear_arith)
                requires
                    p.0 <= u64::MAX * 2,
            ;
            assert(sv.subrange(0, j + 1).drop_last() =~= sv.subrange(0, j as int));
            assert(sv.subrange(0, j + 1).last() == (p.0 as nat, p.1 as nat));
        }
        let m = p.0 * 1000000 / p.1;
        sum = sum + m;
        j = j + 1;
    }
    assert(sv.subrange(0, j as int) =~= sv);
    (sum / (n as u128) + 5000) / 10000
}

proof fn lemma_sum_denominator_positive(s: Seq<(nat, nat)>, k: int)
    requires
        0 <= k <= s.len(),
        forall|j: int| 0 <= j < s.len() ==> #[trigger] s[j].1 > 0,
    ensures
        0 < overlap_sum(s.subrange(0, k)).1,
    decreases k,
{
    if k == 0 {
        assert(s.subrange(0, 0) =~= Seq::<(nat, nat)>::empty());
    } else {
        lemma_sum_denominator_positive(s, k - 1);
        let f = overlap_sum(s.subrange(0, k - 1));
        assert(s.subrange(0, k).drop_last() =~= s.subrange(0, k - 1));
        assert(s.subrange(0, k).last() == s[k - 1]);
        assert(0 < f.1 * s[k - 1].1) by (nonlinear_arith)
            requires
                s[k - 1].1 > 0,
                f.1 > 0,
        ;
    }
}

proof fn lemma_prefix_sum_denominator(s: Seq<(nat, nat)>, i: int, k: int)
    requires
        0 <= i <= k <= s.len(),
        forall|j: int| 0 <= j < s.len() ==> #[trigger] s[j].1 > 0,
    ensures
        0 < overlap_sum(s.subrange(0, i)).1 <= overlap_sum(s.subrange(0, k)).1,
    decreases k - i,
{
    lemma_sum_denominator_positive(s, i);
    if i < k {
        lemma_prefix_sum_denominator(s, i, k - 1);
        let f = overlap_sum(s.subrange(0, k - 1));
        assert(s.subrange(0, k).drop_last() =~= s.subrange(0, k - 1));
        assert(s.subrange(0, k).last() == s[k - 1]);
        assert(f.1 <= f.1 * s[k - 1].1) by (nonlinear_arith)
            requires
                s[k - 1].1 > 0,
        ;
    }
}

/// The score of a group: the mean of its overlaps with two decimals.
fn score_string(scores: &Vec<(u128, u128)>) -> (r: String)
    requires
        scores@.len() > 0,
        forall|k: int| 0 <= k < scores@.len() ==> score_ok(#[trigger] scores@[k]),
    ensures
        r@ == two_decimals(
            score_hundredths(scores@.map_values(|p: (u128, u128)| (p.0 as nat, p.1 as nat))),
        ),
{
    let ghost sv = scores@.map_values(|p: (u128, u128)| (p.0 as nat, p.1 as nat));
    let n = scores.len();
    assert forall|j: int| 0 <= j < sv.len() implies #[trigger] sv[j].1 > 0 by {
        assert(score_ok(scores@[j]));
    }
    // The denominator of the exact sum, where it fits.
    let mut den: u128 = 1;
    let mut fits = true;
    let mut j: usize = 0;
    assert(sv.subrange(0, 0) =~= Seq::<(nat, nat)>::empty());
    while j < n
        invariant
            n == scores@.len(),
            sv == scores@.map_values(|p: (u128, u128)| (p.0 as nat, p.1 as nat)),
            forall|k: int| 0 <= k < sv.len() ==> #[trigger] sv[k].1 > 0,
            j <= n,
            fits ==> den == overlap_sum(sv.subrange(0, j as int)).1,
            !fits ==> overlap_sum(sv.subrange(0, j as int)).1 > u128::MAX,
        decreases n - j,
    {
        let b = scores[j].1;
        proof {
            assert(sv.subrange(0, j + 1).drop_last() =~= sv.subrange(0, j as int));
            assert(sv.subrange(0, j + 1).last() == sv[j as int]);
            assert(sv[j as int].1 == b);
            lemma_prefix_sum_denominator(sv, j as int, j + 1);
        }
        if fits {
            match den.checked_mul(b) {
                Some(x) => den = x,
                None => fits = false,
            }
        }
        j = j + 1;
    }
    assert(sv.subrange(0, n as int) =~= sv);
    let ghost total = overlap_sum(sv).1;
    let mut exact = false;
    let mut limit: u128 = 0;
    if fits {
        match den.checked_mul(100 * (n as u128)) {
            Some(x) => {
                exact = true;
                limit = x;
            },
            None => {},
        }
    }
    proof {
        if !exact {
            if fits {
                assert(den * (100 * n) > u128::MAX);
            }
            assert(100 * n * total > u128::MAX) by (nonlinear_arith)
                requires
                    n >= 1,
                    fits ==> den == total,
                    fits ==> den * (100 * n) > u128::MAX,
                    !fits ==> total > u128::MAX,
            ;
        } else {
            assert(100 * n * total == limit) by (nonlinear_arith)
                requires
                    den == total,
                    limit == den * (100 * n),
            ;
        }
    }
    let h: u128 = if exact {
        let mut num: u128 = 0;
        let mut d: u128 = 1;
        let mut j: usize = 0;
        while j < n
            invariant
                n == scores@.len(),
                sv == scores@.map_values(|p: (u128, u128)| (p.0 as nat, p.1 as nat)),
                forall|k: int| 0 <= k < sv.len() ==> #[trigger] sv[k].1 > 0,
                forall|k: int| 0 <= k < scores@.len() ==> score_ok(#[trigger] scores@[k]),
                j <= n,
                total == overlap_sum(sv).1,
                100 * n * total <= u128::MAX,
                (num as nat, d as nat) == overlap_sum(sv.subrange(0, j as int)),
                num <= j * d,
                d > 0,
            decreases n - j,
        {
            let p = scores[j];
            proof {
                assert(score_ok(scores@[j as int]));
                assert(sv.subrange(0, j + 1).drop_last() =~= sv.subrange(0, j as int));
                assert(sv.subrange(0, j + 1).last() == sv[j as int]);
                lemma_prefix_sum_denominator(sv, j + 1, n as int);
                assert(sv.subrange(0, n as int) =~= sv);
                let nd = d * p.1;
                assert(nd == overlap_sum(sv.subrange(0, j + 1)).1);
                assert(nd <= total);
                assert(total <= u128::MAX) by (nonlinear_arith)
                    requires
                        100 * n * total <= u128::MAX,
                        n >= 1,
                ;
                assert(num * p.1 + p.0 * d <= (j + 1) * nd && (j + 1) * nd <= 100 * n * total)
                    by (nonlinear_arith)
                    requires
                        num <= j * d,
                        p.0 <= p.1,
                        nd == d * p.1,
                        nd <= total,
                        j + 1 <= n,
                ;
            }
            num = num * p.1 + p.0 * d;
            d = d * p.1;
            j = j + 1;
        }
        proof {
            assert(sv.subrange(0, n as int) =~= sv);
            assert(100 * num <= 100 * n * total && 0 < n * d && 2 * (n * d) <= 100 * n * total)
                by (nonlinear_arith)
                requires
                    num <= n * d,
                    d == total,
                    n >= 1,
                    d > 0,
            ;
        }
        let x = 100 * num;
        let y = (n as u128) * d;
        let q = x / y;
        let r = x % y;
        if 2 * r > y {
            q + 1
        } else if 2 * r < y {
            q
        } else if q % 2 == 0 {
            q
        } else {
            q + 1
        }
    } else {
        approximate_hundredths(scores)
    };
    let whole = decimal_string(h / 100);
    let frac = h % 100;
    proof {
        reveal_strlit(".");
    }
    let r = whole.concat(".").concat(digit_str(frac / 10)).concat(digit_str(frac % 10));
    assert(r@ =~= two_decimals(h as nat));
    r
}

/// The first group whose founder's columns overlap `cols` enough, with the
/// overlap.
fn find_group(groups: &Vec<Group>, cols: &Vec<String>, num: u64, den: u64) -> (r: Option<(usize, (u128, u128))>)
    ensures
        match r {
            Some((g, o)) => {
                &&& first_fit(groups_view(groups@), views(cols@).to_set(), num as nat, den as nat, 0) == g
                &&& g < groups@.len()
                &&& (o.0 as nat, o.1 as nat) == jaccard(views(cols@).to_set(), views(groups@[g as int].columns@).to_set())
                &&& o.0 <= o.1
                &&& 0 < o.1
                &&& o.1 <= cols@.len() + groups@[g as int].columns@.len()
            },
            None => first_fit(groups_view(groups@), views(cols@).to_set(), num as nat, den as nat, 0) == -1,
        },
{
    let ghost gv = groups_view(groups@);
    let ghost cs = views(cols@).to_set();
    let lc = cols.len();
    let mut g: usize = 0;
    while g < groups.len()
        invariant
            lc == cols@.len(),
            g <= groups@.len(),
            gv == groups_view(groups@),
            cs == views(cols@).to_set(),
            first_fit(gv, cs, num as nat, den as nat, g as int) == first_fit(gv, cs, num as nat, den as nat, 0),
        decreases groups@.len() - g,
    {
        let o = overlap(cols, &groups[g].columns);
        assert(gv[g as int].0 == views(groups@[g as int].columns@));
        if meets(o, num, den) {
            return Some((g, o));
        }
        g = g + 1;
    }
    None
}

/// Groups the tables of an inventory, taken in order: each table joins the
/// first group whose founder's columns overlap its own by at least
/// `threshold_num / threshold_den`, or founds a new group. Groups of one
/// table are left out.
pub fn find_similar_tables(metadata: &[Data], threshold_num: u64, threshold_den: u64) -> (r: SimilarTables)
    requires
        threshold_den > 0,
    ensures
        r.grouped_tables@.len() == kept(grouping(entries_of(metadata@), threshold_num as nat, threshold_den as nat)).len(),
        forall|i: int|
            0 <= i < r.grouped_tables@.len() ==> shows_group(
                #[trigger] r.grouped_tables@[i],
                kept(grouping(entries_of(metadata@), threshold_num as nat, threshold_den as nat))[i],
            ),
        forall|i: int|
            0 <= i < r.grouped_tables@.len() ==> #[trigger] r.grouped_tables@[i].similar_tables@.len() >= 2,
{
    let ghost num = threshold_num as nat;
    let ghost den = threshold_den as nat;
    let ghost es = entries_of(metadata@);
    let mut groups: Vec<Group> = Vec::new();
    let mut i: usize = 0;
    assert(groups_view(groups@) =~= grouping(es.subrange(0, 0), num, den));
    while i < metadata.len()
        invariant
            i <= metadata@.len(),
            num == threshold_num as nat,
            den == threshold_den as nat,
            es == entries_of(metadata@),
            groups_view(groups@) == grouping(es.subrange(0, i as int), num, den),
            scores_bounded(groups@, i as nat),
        decreases metadata@.len() - i,
    {
        let ghost gv = groups_view(groups@);
        let ghost old_groups = groups@;
        let d = &metadata[i];
        let ld = d.columns.len();
        let ghost e = es[i as int];
        assert(e == (d.table_name@, views(d.columns@)));
        assert(es.subrange(0, i + 1).drop_last() =~= es.subrange(0, i as int));
        match find_group(&groups, &d.columns, threshold_num, threshold_den) {
            Some((g, o)) => {
                let lg = groups[g].columns.len();
                assert(o.1 <= u64::MAX * 2);
                let mut grp = groups.remove(g);
                let name = d.table_name.clone();
                assert(views(grp.members@.push(name)) =~= views(grp.members@).push(name@));
                grp.members.push(name);
                assert(grp.scores@.push(o).map_values(|p: (u128, u128)| (p.0 as nat, p.1 as nat))
                    =~= old_groups[g as int].scores@.map_values(|p: (u128, u128)| (p.0 as nat, p.1 as nat)).push(
                    (o.0 as nat, o.1 as nat)));
                grp.scores.push(o);
                groups.insert(g, grp);
                assert(groups@ =~= old_groups.update(g as int, grp));
                assert(groups_view(groups@) =~= group_step(gv, e, num, den));
                assert forall|a: int, k: int|
                    0 <= a < groups@.len() && 0 <= k < groups@[a].scores@.len() implies score_ok(
                        #[trigger] groups@[a].scores@[k],
                    ) by {
                    if a == g {
                        if k < old_groups[a].scores@.len() {
                            assert(groups@[a].scores@[k] == old_groups[a].scores@[k]);
                        } else {
                            assert(groups@[a].scores@[k] == o);
                        }
                    } else {
                        assert(groups@[a] == old_groups[a]);
                    }
                }
                assert forall|a: int| 0 <= a < groups@.len() implies #[trigger] groups@[a].scores@.len()
                    <= i + 1 && groups@[a].members@.len() == groups@[a].scores@.len() + 1 by {
                    if a != g {
                        assert(groups@[a] == old_groups[a]);
                    }
                }
            },
            None => {
                let columns = d.columns.clone();
                assert(columns@ =~= d.columns@);
                let mut members: Vec<String> = Vec::new();
                members.push(d.table_name.clone());
                let grp = Group { columns, members, scores: Vec::new() };
                assert(group_view(grp) =~= (e.1, seq![e.0], Seq::<(nat, nat)>::empty()));
                groups.push(grp);
                assert(groups_view(groups@) =~= group_step(gv, e, num, den));
            },
        }
        i = i + 1;
    }
    assert(es.subrange(0, i as int) =~= es);
    let ghost gv = groups_view(groups@);
    let mut out: Vec<TableGroup> = Vec::new();
    let mut j: usize = 0;
    while j < groups.len()
        invariant
            j <= groups@.len(),
            gv == groups_view(groups@),
            scores_bounded(groups@, metadata@.len() as nat),
            out@.len() == kept(gv.subrange(0, j as int)).len(),
            forall|k: int| 0 <= k < out@.len() ==> shows_group(#[trigger] out@[k], kept(gv.subrange(0, j as int))[k]),
            forall|k: int| 0 <= k < out@.len() ==> #[trigger] out@[k].similar_tables@.len() >= 2,
        decreases groups@.len() - j,
    {
        let grp = &groups[j];
        assert(gv.subrange(0, j + 1).drop_last() =~= gv.subrange(0, j as int));
        assert(gv[j as int] == group_view(*grp));
        if grp.members.len() >= 2 {
            let score = score_string(&grp.scores);
            let similar_tables = grp.members.clone();
            let shared_columns = grp.columns.clone();
            assert(similar_tables@ =~= grp.members@);
            assert(shared_columns@ =~= grp.columns@);
            out.push(TableGroup { similar_tables, shared_columns, similarity_score: score });
        }
        j = j + 1;
    }
    assert(gv.subrange(0, j as int) =~= gv);
    SimilarTables { grouped_tables: out }
}

} // verus!
