use scomp::models::{ColumnInfo, ConnectInfo, Deploy, IndexInfo};
use scomp::reconcile::{
    collect_deploy_facts, column_format, find_most_used_column, find_most_used_index,
    index_format, select_max_one,
};
use scomp::registry::build_deploy;
use scomp::report::{output_column_info, output_index_info};

fn connect(environment: &str, country: &str) -> ConnectInfo {
    ConnectInfo {
        host: "localhost".to_string(),
        port: 3306,
        schema: "schema".to_string(),
        user: "user".to_string(),
        password: "SECRET-REDACTED".to_string(),
        country: country.to_string(),
        environment: environment.to_string(),
    }
}

fn deploy(environment: &str, country: &str) -> Deploy {
    Deploy { country: country.to_string(), environment: environment.to_string() }
}

fn col(
    environment: &str,
    country: &str,
    table: &str,
    name: &str,
    column_type: &str,
    nullable: &str,
    default_value: Option<&str>,
) -> ColumnInfo {
    ColumnInfo {
        country: country.to_string(),
        environment: environment.to_string(),
        schema: "schema".to_string(),
        table: table.to_string(),
        column_name: name.to_string(),
        column_type: column_type.to_string(),
        data_type: column_type.to_lowercase(),
        text_max_length: None,
        text_octet_length: None,
        num_precision: None,
        num_scale: None,
        default_value: default_value.map(|d| d.to_string()),
        nullable: nullable.to_string(),
        comment: None,
        display: None,
    }
}

fn idx(
    environment: &str,
    country: &str,
    table: &str,
    index_name: &str,
    unique: bool,
    sequence: i32,
    column: &str,
) -> IndexInfo {
    IndexInfo {
        country: country.to_string(),
        environment: environment.to_string(),
        schema: "schema".to_string(),
        table: table.to_string(),
        index_name: index_name.to_string(),
        unique,
        sequence,
        column: column.to_string(),
        display: None,
    }
}

#[test]
fn registry_dedups_and_sorts() {
    let configs = vec![connect("prod", "us"), connect("prod", "us"), connect("stage", "de")];
    let deploys = build_deploy(&configs);
    assert_eq!(deploys.len(), 2);
    assert_eq!(deploys[0].environment.as_str(), "prod");
    assert_eq!(deploys[0].country.as_str(), "us");
    assert_eq!(deploys[1].environment.as_str(), "stage");
    assert_eq!(deploys[1].country.as_str(), "de");
}

#[test]
fn registry_empty_input() {
    let configs: Vec<ConnectInfo> = vec![];
    let deploys = build_deploy(&configs);
    assert!(deploys.is_empty());
}

#[test]
fn column_format_plain() {
    let c = col("a", "us", "t", "c", "INT", "NO", None);
    assert_eq!(column_format(&c).as_str(), "INT");
}

#[test]
fn column_format_nullable_with_default() {
    let c = col("a", "us", "t", "c", "int(11)", "YES", Some("0"));
    assert_eq!(column_format(&c).as_str(), "int(11) NULL 0");
}

#[test]
fn column_format_trims_edges() {
    let c = col("a", "us", "t", "c", " INT ", "NO", None);
    assert_eq!(column_format(&c).as_str(), "INT");
    let d = col("a", "us", "t", "c", "INT", "YES", Some(""));
    assert_eq!(column_format(&d).as_str(), "INT NULL");
}

#[test]
fn index_format_unique_joins_columns() {
    let entries = vec![idx("a", "us", "t", "i", true, 1, "x"), idx("a", "us", "t", "i", true, 2, "y")];
    assert_eq!(index_format(&entries).as_str(), "UNIQUE x, y");
}

#[test]
fn index_format_plain_single() {
    let entries = vec![idx("a", "us", "t", "i", false, 1, "x")];
    assert_eq!(index_format(&entries).as_str(), "x");
}

#[test]
fn select_max_one_first_entry_wins_ties() {
    let counted = vec![("A".to_string(), 2usize), ("B".to_string(), 2usize)];
    assert_eq!(select_max_one(&counted, 4, 4).as_str(), "A");
}

#[test]
fn select_max_one_absence_rule() {
    // 3 deployments, 1 value: 2 blank cells outnumber the single value
    let counted = vec![("X".to_string(), 1usize)];
    assert_eq!(select_max_one(&counted, 1, 3).as_str(), "");
    // 3 deployments, 2 equal values: the value stands
    let counted2 = vec![("X".to_string(), 2usize)];
    assert_eq!(select_max_one(&counted2, 2, 3).as_str(), "X");
}

#[test]
fn majority_rule_two_against_one() {
    // forms A, A, B over three deployments: baseline A, only B deviates
    let bucket = vec![
        col("a", "us", "t", "c", "A", "NO", None),
        col("b", "us", "t", "c", "A", "NO", None),
        col("c", "us", "t", "c", "B", "NO", None),
    ];
    let deploys = vec![deploy("a", "us"), deploy("b", "us"), deploy("c", "us")];
    assert_eq!(find_most_used_column(&bucket, 3).as_str(), "A");
    let out = output_column_info(&bucket, &deploys);
    assert_eq!(
        out.as_str(),
        "Schema\tTable\tColumn\t[a us]\t[b us]\t[c us]\nschema\tt\tc\tA\tA\t**B\n"
    );
}

#[test]
fn absence_rule_single_fact_three_deployments() {
    // one fact among three deployments: baseline empty, the one cell deviates
    let bucket = vec![col("a", "us", "t", "c", "X", "NO", None)];
    let deploys = vec![deploy("a", "us"), deploy("b", "us"), deploy("c", "us")];
    assert_eq!(find_most_used_column(&bucket, 3).as_str(), "");
    let out = output_column_info(&bucket, &deploys);
    assert_eq!(
        out.as_str(),
        "Schema\tTable\tColumn\t[a us]\t[b us]\t[c us]\nschema\tt\tc\t**X\t\t\n"
    );
}

#[test]
fn empty_input_header_only_reports() {
    let deploys: Vec<Deploy> = vec![];
    let columns: Vec<ColumnInfo> = vec![];
    let indices: Vec<IndexInfo> = vec![];
    assert_eq!(output_column_info(&columns, &deploys).as_str(), "Schema\tTable\tColumn\n");
    assert_eq!(output_index_info(&indices, &deploys).as_str(), "Schema\tTable\tIndex\n");
}

#[test]
fn end_to_end_nullability_tie() {
    // a 1-1 tie: the first-tallied form is the baseline, the other deviates
    let columns = vec![
        col("envA", "us", "t", "c", "INT", "NO", None),
        col("envB", "us", "t", "c", "INT", "YES", None),
    ];
    let deploys = vec![deploy("envA", "us"), deploy("envB", "us")];
    let out = output_column_info(&columns, &deploys);
    assert_eq!(
        out.as_str(),
        "Schema\tTable\tColumn\t[envA us]\t[envB us]\nschema\tt\tc\tINT\t**INT NULL\n"
    );
}

#[test]
fn repeated_runs_render_identically() {
    let columns = vec![
        col("envA", "us", "t", "c", "INT", "NO", None),
        col("envB", "us", "t", "c", "INT", "YES", None),
        col("envA", "us", "t", "d", "TEXT", "NO", None),
    ];
    let deploys = vec![deploy("envA", "us"), deploy("envB", "us")];
    let first = output_column_info(&columns, &deploys);
    let second = output_column_info(&columns, &deploys);
    assert_eq!(first.as_str(), second.as_str());
}

#[test]
fn index_render_independent_of_collection_order() {
    let d = deploy("a", "us");
    let one = vec![
        idx("a", "us", "t", "i", false, 2, "second"),
        idx("a", "us", "t", "i", false, 1, "first"),
        idx("a", "us", "t", "i", false, 3, "third"),
    ];
    let two = vec![
        idx("a", "us", "t", "i", false, 3, "third"),
        idx("a", "us", "t", "i", false, 1, "first"),
        idx("a", "us", "t", "i", false, 2, "second"),
    ];
    let sorted_one = collect_deploy_facts(&one, &d);
    let sorted_two = collect_deploy_facts(&two, &d);
    assert_eq!(index_format(&sorted_one).as_str(), "first, second, third");
    assert_eq!(index_format(&sorted_two).as_str(), "first, second, third");
}

#[test]
fn index_report_independent_of_collection_order() {
    // the same facts collected in two different orders give the same report
    let one = vec![
        idx("a", "us", "t", "i", false, 1, "x"),
        idx("a", "us", "t", "i", false, 2, "y"),
        idx("b", "us", "t", "i", false, 2, "y"),
        idx("b", "us", "t", "i", false, 1, "x"),
        idx("a", "us", "t2", "j", true, 1, "z"),
    ];
    let two = vec![
        idx("a", "us", "t2", "j", true, 1, "z"),
        idx("b", "us", "t", "i", false, 1, "x"),
        idx("a", "us", "t", "i", false, 2, "y"),
        idx("b", "us", "t", "i", false, 2, "y"),
        idx("a", "us", "t", "i", false, 1, "x"),
    ];
    let deploys = vec![deploy("a", "us"), deploy("b", "us")];
    assert_eq!(
        output_index_info(&one, &deploys).as_str(),
        output_index_info(&two, &deploys).as_str()
    );
}

#[test]
fn index_report_marks_deviating_composition() {
    // the index has columns (x, y) in two deployments and (y, x) in the third
    let indices = vec![
        idx("a", "us", "t", "i", false, 1, "x"),
        idx("a", "us", "t", "i", false, 2, "y"),
        idx("b", "us", "t", "i", false, 1, "x"),
        idx("b", "us", "t", "i", false, 2, "y"),
        idx("c", "us", "t", "i", false, 1, "y"),
        idx("c", "us", "t", "i", false, 2, "x"),
    ];
    let deploys = vec![deploy("a", "us"), deploy("b", "us"), deploy("c", "us")];
    assert_eq!(find_most_used_index(&deploys, &indices).as_str(), "x, y");
    let out = output_index_info(&indices, &deploys);
    assert_eq!(
        out.as_str(),
        "Schema\tTable\tIndex\t[a us]\t[b us]\t[c us]\nschema\tt\ti\tx, y\tx, y\t**y, x\n"
    );
}

#[test]
fn index_absence_rule_multi_column() {
    // a two-column index present in one deployment of three: two absent
    // cells against one joined form, so the baseline is empty and the one
    // deployment that has the index deviates
    let indices = vec![
        idx("a", "us", "t", "i", false, 1, "x"),
        idx("a", "us", "t", "i", false, 2, "y"),
    ];
    let deploys = vec![deploy("a", "us"), deploy("b", "us"), deploy("c", "us")];
    assert_eq!(find_most_used_index(&deploys, &indices).as_str(), "");
    let out = output_index_info(&indices, &deploys);
    assert_eq!(
        out.as_str(),
        "Schema\tTable\tIndex\t[a us]\t[b us]\t[c us]\nschema\tt\ti\t**x, y\t\t\n"
    );
}

#[test]
fn index_absent_in_one_deployment() {
    // present twice, absent once: baseline stands, absence deviates
    let indices = vec![
        idx("a", "us", "t", "i", true, 1, "x"),
        idx("b", "us", "t", "i", true, 1, "x"),
    ];
    let deploys = vec![deploy("a", "us"), deploy("b", "us"), deploy("c", "us")];
    let out = output_index_info(&indices, &deploys);
    assert_eq!(
        out.as_str(),
        "Schema\tTable\tIndex\t[a us]\t[b us]\t[c us]\nschema\tt\ti\tUNIQUE x\tUNIQUE x\t**\n"
    );
}

#[test]
fn rows_sorted_by_schema_table_and_name() {
    let columns = vec![
        col("a", "us", "zz", "c", "INT", "NO", None),
        col("a", "us", "aa", "d", "INT", "NO", None),
        col("a", "us", "aa", "b", "INT", "NO", None),
    ];
    let deploys = vec![deploy("a", "us")];
    let out = output_column_info(&columns, &deploys);
    assert_eq!(
        out.as_str(),
        "Schema\tTable\tColumn\t[a us]\nschema\taa\tb\tINT\nschema\taa\td\tINT\nschema\tzz\tc\tINT\n"
    );
}

#[test]
fn missing_column_deviates_when_baseline_nonempty() {
    let columns = vec![
        col("a", "us", "t", "c", "INT", "NO", None),
        col("b", "us", "t", "c", "INT", "NO", None),
    ];
    let deploys = vec![deploy("a", "us"), deploy("b", "us"), deploy("c", "us")];
    let out = output_column_info(&columns, &deploys);
    assert_eq!(
        out.as_str(),
        "Schema\tTable\tColumn\t[a us]\t[b us]\t[c us]\nschema\tt\tc\tINT\tINT\t**\n"
    );
}

#[test]
fn to_deploy_projects_labels() {
    let c = connect("prod", "us");
    let d = c.to_deploy();
    assert_eq!(d.environment.as_str(), "prod");
    assert_eq!(d.country.as_str(), "us");
}
