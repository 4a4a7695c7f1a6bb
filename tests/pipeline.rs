use sql_table_inventory::inference::{find_similar_tables, SimilarTables};
use sql_table_inventory::processor::{process_queries, replace_aliases, table_name_aliases, Data};
use sql_table_inventory::query::Query;

fn query(text: &str, tables: &str, select: &str, join: &str, wh: &str, agg: &str) -> Query {
    Query {
        query_text: text.to_string(),
        tables: tables.to_string(),
        select_columns: select.to_string(),
        join_columns: join.to_string(),
        where_columns: wh.to_string(),
        agg_columns: agg.to_string(),
    }
}

fn data(name: &str, cols: &[&str]) -> Data {
    Data { table_name: name.to_string(), columns: cols.iter().map(|c| c.to_string()).collect() }
}

fn strings(v: &[&str]) -> Vec<String> {
    v.iter().map(|s| s.to_string()).collect()
}

fn pairs(v: &[(String, String)]) -> Vec<(&str, &str)> {
    v.iter().map(|(a, b)| (a.as_str(), b.as_str())).collect()
}

fn summary(r: &SimilarTables) -> Vec<(Vec<String>, Vec<String>, String)> {
    r.grouped_tables
        .iter()
        .map(|g| (g.similar_tables.clone(), g.shared_columns.clone(), g.similarity_score.clone()))
        .collect()
}

fn inventory(r: &[Data]) -> Vec<(String, Vec<String>)> {
    r.iter().map(|d| (d.table_name.clone(), d.columns.clone())).collect()
}

#[test]
fn entry_with_schema_and_alias() {
    let r = table_name_aliases(strings(&["[s].[T] as a"]));
    assert_eq!(pairs(&r), vec![("T", "a")]);
}

#[test]
fn entry_without_alias() {
    let r = table_name_aliases(strings(&["[s].[T]"]));
    assert_eq!(pairs(&r), vec![("T", "")]);
}

#[test]
fn entry_with_quotes_and_no_schema() {
    let r = table_name_aliases(strings(&["\"Orders\" as \"o\""]));
    assert_eq!(pairs(&r), vec![("Orders", "o")]);
}

#[test]
fn later_entry_for_same_table_wins() {
    let r = table_name_aliases(strings(&["[dbo].[T] as a", "[x].[U] as u", "[y].[T] as b"]));
    assert_eq!(pairs(&r), vec![("T", "b"), ("U", "u")]);
}

#[test]
fn malformed_entry_gives_empty_name() {
    let r = table_name_aliases(strings(&["[]"]));
    assert_eq!(pairs(&r), vec![("", "")]);
}

#[test]
fn table_list_is_split_on_comma_space() {
    let q = query("", "[dbo].[Orders] as o, [dbo].[Customers] as c", "", "", "", "");
    assert_eq!(q.tables(), strings(&["[dbo].[Orders] as o", "[dbo].[Customers] as c"]));
}

#[test]
fn quoted_references_are_extracted_and_deduplicated() {
    let q = query("", "", "\"o.id\", \"o.total\"", "\"o.id\"", "plain, \"c.name\"", "");
    assert_eq!(q.columns(), strings(&["o.id", "o.total", "c.name"]));
}

#[test]
fn quoted_qualifier_and_column_pair() {
    let q = query("", "", "\"o\".\"id\", x \"c\".\"id\" y", "", "", "");
    assert_eq!(q.columns(), strings(&["o.id", "c.id"]));
}

#[test]
fn empty_quotes_are_skipped() {
    let q = query("", "", "\"\"\"t.a\"", "no quotes here", "", "");
    assert_eq!(q.columns(), strings(&["t.a"]));
}

#[test]
fn alias_resolves_to_table() {
    let aliases = table_name_aliases(strings(&["[dbo].[Orders] as o", "[dbo].[Customers] as c"]));
    let r = replace_aliases(strings(&["o.id", "Customers.name", "z.q", "nodot"]), &aliases);
    assert_eq!(r, strings(&["Orders.id", "Customers.name", "z.q", "nodot"]));
}

#[test]
fn alias_shared_by_two_tables_is_kept() {
    let aliases = table_name_aliases(strings(&["A as x", "B as x"]));
    let r = replace_aliases(strings(&["x.c"]), &aliases);
    assert_eq!(r, strings(&["x.c"]));
}

#[test]
fn end_to_end_alias_inventory() {
    let q = query("", "[dbo].[Orders] as o, [dbo].[Customers] as c", "\"o\".\"id\", \"c\".\"id\"", "", "", "");
    let inv = process_queries(vec![q]);
    assert_eq!(
        inventory(&inv),
        vec![("Customers".to_string(), strings(&["id"])), ("Orders".to_string(), strings(&["id"]))]
    );
}

#[test]
fn fallback_tokenizing() {
    let q = query("INSERT INTO Sales (col1, col2, col3) SELECT col1, col2, col3 FROM Staging", "", "", "", "", "");
    assert_eq!(q.tables_query_text(), strings(&["Sales"]));
    assert_eq!(q.columns_query_text(), strings(&["col1", "col2", "col3"]));
    let inv = process_queries(vec![q]);
    assert_eq!(inventory(&inv), vec![("Sales".to_string(), strings(&["col1", "col2", "col3"]))]);
}

#[test]
fn fallback_takes_last_segment_of_table() {
    let q = query("INSERT INTO dbo.Sales (a, b) SELECT a, b FROM S", "", "", "", "", "");
    assert_eq!(q.tables_query_text(), strings(&["Sales"]));
    assert_eq!(q.columns_query_text(), strings(&["a", "b"]));
}

#[test]
fn fallback_without_keywords() {
    let q = query("just words", "", "", "", "", "");
    assert_eq!(q.tables_query_text(), strings(&["words"]));
    assert_eq!(q.columns_query_text(), Vec::<String>::new());
    let e = query("", "", "", "", "", "");
    assert_eq!(e.tables_query_text(), strings(&[""]));
    assert_eq!(e.columns_query_text(), Vec::<String>::new());
}

#[test]
fn inventory_is_sorted_and_merged() {
    let q1 = query("", "T as t", "\"t.b\", \"t.a\"", "", "", "");
    let q2 = query("", "S, T", "\"T.a\", \"S.z\", \"T.c\"", "", "", "");
    let inv = process_queries(vec![q1, q2]);
    assert_eq!(
        inventory(&inv),
        vec![("S".to_string(), strings(&["z"])), ("T".to_string(), strings(&["a", "b", "c"]))]
    );
}

#[test]
fn empty_batch_gives_empty_inventory() {
    assert!(process_queries(vec![]).is_empty());
}

#[test]
fn aggregation_twice_is_same() {
    let q = query("", "[dbo].[Orders] as o", "\"o.id\", \"o.total\"", "", "", "");
    let once = process_queries(vec![q.clone()]);
    let twice = process_queries(vec![q.clone(), q]);
    assert_eq!(inventory(&once), inventory(&twice));
}

#[test]
fn repeated_runs_are_identical() {
    let qs = vec![
        query("", "A as a", "\"a.x\", \"a.y\"", "", "", ""),
        query("", "B as b", "\"b.x\", \"b.y\"", "", "", ""),
        query("", "C", "\"C.q\"", "", "", ""),
    ];
    let r1 = process_queries(qs.clone());
    let r2 = process_queries(qs);
    assert_eq!(inventory(&r1), inventory(&r2));
    let g1 = find_similar_tables(&r1, 1, 2);
    let g2 = find_similar_tables(&r2, 1, 2);
    assert_eq!(summary(&g1), summary(&g2));
}

#[test]
fn boundary_threshold_half_is_inclusive() {
    let inv = vec![data("T1", &["a", "b", "c"]), data("T2", &["a", "b", "d"])];
    let r = find_similar_tables(&inv, 50, 100);
    assert_eq!(summary(&r), vec![(strings(&["T1", "T2"]), strings(&["a", "b", "c"]), "0.50".to_string())]);
    let r = find_similar_tables(&inv, 51, 100);
    assert!(r.grouped_tables.is_empty());
}

#[test]
fn identical_inventories_group_with_full_score() {
    let inv = vec![data("Customers", &["id", "total"]), data("Orders", &["id", "total"])];
    let r = find_similar_tables(&inv, 1, 2);
    assert_eq!(
        summary(&r),
        vec![(strings(&["Customers", "Orders"]), strings(&["id", "total"]), "1.00".to_string())]
    );
}

#[test]
fn threshold_one_groups_only_identical_sets() {
    let inv = vec![data("A", &["x", "y"]), data("B", &["x"]), data("C", &["y", "x"])];
    let r = find_similar_tables(&inv, 1, 1);
    assert_eq!(summary(&r), vec![(strings(&["A", "C"]), strings(&["x", "y"]), "1.00".to_string())]);
}

#[test]
fn threshold_zero_groups_everything() {
    let inv = vec![data("A", &["x"]), data("B", &["y"]), data("C", &["z"])];
    let r = find_similar_tables(&inv, 0, 1);
    assert_eq!(summary(&r), vec![(strings(&["A", "B", "C"]), strings(&["x"]), "0.00".to_string())]);
}

#[test]
fn first_fit_not_best_fit() {
    let inv = vec![
        data("A", &["a", "b"]),
        data("B", &["a", "b", "c", "d"]),
        data("C", &["a", "b", "c", "d", "e"]),
    ];
    // C overlaps A by 2/5 and B by 4/5; at 2/5 it joins A, the earlier group.
    let r = find_similar_tables(&inv, 2, 5);
    assert_eq!(summary(&r), vec![(strings(&["A", "B", "C"]), strings(&["a", "b"]), "0.45".to_string())]);
}

#[test]
fn score_is_mean_of_later_members() {
    let inv = vec![data("A", &["a", "b", "c"]), data("B", &["a", "b"]), data("C", &["a", "b", "c"])];
    let r = find_similar_tables(&inv, 1, 2);
    // B joins with 2/3, C with 3/3: mean 0.8333...
    assert_eq!(summary(&r), vec![(strings(&["A", "B", "C"]), strings(&["a", "b", "c"]), "0.83".to_string())]);
}

#[test]
fn singletons_are_dropped() {
    let inv = vec![data("A", &["a"]), data("B", &["b"]), data("C", &["a"]), data("D", &["d"])];
    let r = find_similar_tables(&inv, 1, 2);
    assert_eq!(summary(&r), vec![(strings(&["A", "C"]), strings(&["a"]), "1.00".to_string())]);
    for g in &r.grouped_tables {
        assert!(g.similar_tables.len() >= 2);
    }
}

#[test]
fn empty_column_sets_never_group() {
    let inv = vec![data("A", &[]), data("B", &[])];
    let r = find_similar_tables(&inv, 0, 1);
    assert!(r.grouped_tables.is_empty());
}

#[test]
fn empty_inventory_gives_no_groups() {
    let r = find_similar_tables(&[], 1, 2);
    assert!(r.grouped_tables.is_empty());
}

#[test]
fn score_is_exact_mean_rounded() {
    let inv = vec![
        data("A", &["a", "b", "c", "d", "e", "f"]),
        data("B", &["a", "b", "c", "g", "h", "i"]),
        data("C", &["a", "b", "c", "d", "e", "j", "k", "l", "m", "n", "o"]),
    ];
    // B joins with 3/9, C with 5/12: the mean is exactly 0.375.
    let r = find_similar_tables(&inv, 1, 3);
    assert_eq!(
        summary(&r),
        vec![(strings(&["A", "B", "C"]), strings(&["a", "b", "c", "d", "e", "f"]), "0.38".to_string())]
    );
}

#[test]
fn score_tie_at_one_eighth_goes_to_even() {
    let inv = vec![data("A", &["a", "b", "c", "d"]), data("B", &["a", "e", "f", "g", "h"])];
    // 1/8 = 0.125 lies halfway between 0.12 and 0.13.
    let r = find_similar_tables(&inv, 1, 8);
    assert_eq!(summary(&r)[0].2, "0.12".to_string());
}

#[test]
fn score_tie_at_five_eighths_goes_to_even() {
    let inv = vec![
        data("A", &["a", "b", "c", "d", "e", "f", "g"]),
        data("B", &["a", "b", "c", "d", "e", "x"]),
        data("C", &["a", "b", "c", "d", "e", "f", "g"]),
    ];
    // B joins with 5/8 and C with 1: the mean 0.8125 rounds to 0.81.
    let r = find_similar_tables(&inv, 1, 2);
    assert_eq!(summary(&r)[0].2, "0.81".to_string());
    let r = find_similar_tables(&inv[..2], 1, 2);
    // 5/8 = 0.625 lies halfway between 0.62 and 0.63.
    assert_eq!(summary(&r)[0].2, "0.62".to_string());
}

#[test]
fn fallback_table_is_trimmed_of_white_space() {
    let q = query("INTO a\n", "", "", "", "", "");
    assert_eq!(q.tables_query_text(), strings(&["a"]));
    let q = query("INSERT INTO dbo.Sales\n(col1, col2) SELECT col1, col2 FROM S", "", "", "", "", "");
    assert_eq!(q.tables_query_text(), strings(&["Sales"]));
}
