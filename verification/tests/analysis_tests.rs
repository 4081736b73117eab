use sql_ast_benchmark::aggregate::aggregate;
use sql_ast_benchmark::aggregate::parse_u64;
use sql_ast_benchmark::aggregate::BackendDir;
use sql_ast_benchmark::aggregate::GroupDir;
use sql_ast_benchmark::aggregate::SizeEntry;
use sql_ast_benchmark::aggregate::StoreSnapshot;
use sql_ast_benchmark::backends::all_backends;
use sql_ast_benchmark::backends::compatibility;
use sql_ast_benchmark::backends::compatibility_percent_tenths;
use sql_ast_benchmark::backends::is_valid_both;
use sql_ast_benchmark::backends::is_valid_for_all;
use sql_ast_benchmark::backends::is_valid_sql_parse;
use sql_ast_benchmark::backends::is_valid_sqlparser;
use sql_ast_benchmark::backends::percent_display;
use sql_ast_benchmark::backends::u64_to_string;
use sql_ast_benchmark::backends::SqlBackend;
use sql_ast_benchmark::layout::grid_layout;
use sql_ast_benchmark::layout::has_renderable_groups;
use sql_ast_benchmark::layout::legend_cell_index;
use sql_ast_benchmark::layout::legend_entry_offsets;

const RECORD: &str = "{\"mean\": {\"point_estimate\": 1500.5},\
 \"std_dev\": {\"point_estimate\": 12.25}}";

fn size_entry(name: &str, record: Option<&str>) -> SizeEntry {
    SizeEntry { name: name.to_string(), record: record.map(String::from) }
}

#[test]
fn backends_accept_plain_select() {
    assert!(is_valid_sqlparser("SELECT id FROM users"));
    assert!(is_valid_sql_parse("SELECT id FROM users;"));
    assert!(is_valid_both("SELECT id FROM users"));
    assert!(SqlBackend::Sqlparser.is_valid("SELECT 1"));
}

#[test]
fn backends_reject_garbage() {
    assert!(!is_valid_sqlparser("THIS IS NOT SQL (("));
    assert!(!is_valid_sql_parse("THIS IS NOT SQL (("));
    assert!(!is_valid_both("THIS IS NOT SQL (("));
}

#[test]
fn validity_for_all_is_a_conjunction() {
    let backends = all_backends();
    assert_eq!(backends.len(), 2);
    assert!(is_valid_for_all("SELECT id FROM users;", &backends));
    assert!(!is_valid_for_all("THIS IS NOT SQL ((", &backends));
    let none: Vec<SqlBackend> = Vec::new();
    assert!(is_valid_for_all("anything at all", &none));
}

#[test]
fn compatibility_counts_83_of_100() {
    let mut corpus: Vec<String> = Vec::new();
    for _ in 0..83 {
        corpus.push("SELECT 1".to_string());
    }
    for _ in 0..17 {
        corpus.push("THIS IS NOT SQL ((".to_string());
    }
    let (accepted, total) = compatibility(&corpus, &SqlBackend::Sqlparser);
    assert_eq!((accepted, total), (83, 100));
    let tenths = compatibility_percent_tenths(accepted, total).unwrap();
    assert_eq!(tenths, 830);
    assert_eq!(percent_display(tenths), "83.0%");
}

#[test]
fn empty_corpus_has_no_percentage() {
    let corpus: Vec<String> = Vec::new();
    let (accepted, total) = compatibility(&corpus, &SqlBackend::SqlParse);
    assert_eq!((accepted, total), (0, 0));
    assert!(compatibility_percent_tenths(accepted, total).is_none());
}

#[test]
fn decimal_rendering_is_exact() {
    assert_eq!(u64_to_string(0), "0");
    assert_eq!(u64_to_string(7), "7");
    assert_eq!(u64_to_string(1234), "1234");
    assert_eq!(percent_display(1000), "100.0%");
    assert_eq!(percent_display(305), "30.5%");
}

#[test]
fn directory_names_parse_as_sizes() {
    assert_eq!(parse_u64("100"), Some(100));
    assert_eq!(parse_u64("+5"), Some(5));
    assert_eq!(parse_u64("0"), Some(0));
    assert_eq!(parse_u64(""), None);
    assert_eq!(parse_u64("12a"), None);
    assert_eq!(parse_u64("-3"), None);
    assert_eq!(parse_u64("99999999999999999999"), None);
}

#[test]
fn aggregation_keeps_only_allowed_sizes() {
    let snapshot = StoreSnapshot {
        groups: vec![GroupDir {
            name: "select".to_string(),
            backends: vec![BackendDir {
                name: "sqlparser".to_string(),
                sizes: vec![
                    size_entry("100", Some(RECORD)),
                    size_entry("750", Some(RECORD)),
                    size_entry("report", Some(RECORD)),
                    size_entry("500", None),
                ],
            }],
        }],
    };
    let allowed = vec![1, 10, 50, 100, 500, 1000];
    let table = aggregate(&snapshot, &allowed);
    assert_eq!(table.groups.len(), 1);
    assert_eq!(table.groups[0].group, "select");
    let rows = &table.groups[0].backends;
    assert_eq!(rows.len(), 1);
    assert_eq!(rows[0].backend, "sqlparser");
    assert_eq!(rows[0].cells.len(), 1);
    assert_eq!(rows[0].cells[0].size, 100);
    assert_eq!(rows[0].cells[0].result.mean_ns.parse::<f64>().unwrap(), 1500.5);
    assert_eq!(rows[0].cells[0].result.std_dev_ns.parse::<f64>().unwrap(), 12.25);
}

#[test]
fn empty_levels_are_omitted_entirely() {
    let snapshot = StoreSnapshot {
        groups: vec![
            GroupDir {
                name: "insert".to_string(),
                backends: vec![BackendDir {
                    name: "sql_parse".to_string(),
                    sizes: vec![size_entry("750", Some(RECORD))],
                }],
            },
            GroupDir { name: "nightly".to_string(), backends: Vec::new() },
        ],
    };
    let allowed = vec![1, 10, 50, 100, 500, 1000];
    let table = aggregate(&snapshot, &allowed);
    assert!(table.groups.is_empty());
}

#[test]
fn empty_store_yields_empty_table_and_no_rendering() {
    let snapshot = StoreSnapshot { groups: Vec::new() };
    let allowed = vec![1, 10, 50, 100, 500, 1000];
    let table = aggregate(&snapshot, &allowed);
    assert!(table.groups.is_empty());
    assert!(!has_renderable_groups(&table));
}

#[test]
fn grid_is_three_columns_with_header_band() {
    let g = grid_layout(5);
    assert_eq!((g.cols, g.rows), (3, 2));
    assert_eq!((g.width, g.height), (1200, 700));
    let g1 = grid_layout(1);
    assert_eq!((g1.rows, g1.height), (1, 400));
}

#[test]
fn legend_takes_the_first_leftover_cell() {
    assert_eq!(legend_cell_index(5), Some(5));
    assert_eq!(legend_cell_index(4), Some(4));
    assert_eq!(legend_cell_index(3), None);
    assert_eq!(legend_cell_index(6), None);
}

#[test]
fn legend_entries_stack_around_the_center() {
    let offsets = legend_entry_offsets(4, 300);
    assert_eq!(offsets, vec![90, 120, 150, 180]);
}

#[test]
fn table_orders_groups_and_backends_canonically() {
    let snapshot = StoreSnapshot {
        groups: vec![
            GroupDir {
                name: "dml".to_string(),
                backends: vec![
                    BackendDir {
                        name: "sql_parse".to_string(),
                        sizes: vec![size_entry("10", Some(RECORD))],
                    },
                    BackendDir {
                        name: "sqlparser".to_string(),
                        sizes: vec![size_entry("10", Some(RECORD))],
                    },
                ],
            },
            GroupDir {
                name: "select".to_string(),
                backends: vec![BackendDir {
                    name: "sqlparser".to_string(),
                    sizes: vec![size_entry("1", Some(RECORD))],
                }],
            },
        ],
    };
    let allowed = vec![1, 10, 50, 100, 500, 1000];
    let table = aggregate(&snapshot, &allowed);
    let group_names: Vec<&str> = table.groups.iter().map(|g| g.group.as_str()).collect();
    assert_eq!(group_names, vec!["select", "dml"]);
    let dml_rows: Vec<&str> =
        table.groups[1].backends.iter().map(|b| b.backend.as_str()).collect();
    assert_eq!(dml_rows, vec!["sqlparser", "sql_parse"]);
}
