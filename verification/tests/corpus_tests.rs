use sql_ast_benchmark::corpus::batch_of;
use sql_ast_benchmark::corpus::concatenate_statements;
use sql_ast_benchmark::corpus::load_delete_statements;
use sql_ast_benchmark::corpus::load_dml_statements;
use sql_ast_benchmark::corpus::load_insert_statements;
use sql_ast_benchmark::corpus::load_select_statements;
use sql_ast_benchmark::corpus::load_spider_select;
use sql_ast_benchmark::corpus::sizes_for;
use sql_ast_benchmark::corpus::statements_from_text;
use sql_ast_benchmark::corpus::DatasetStore;

fn store(
    spider: Option<&str>,
    gretel: Option<&str>,
    insert: Option<&str>,
    update: Option<&str>,
    delete: Option<&str>,
) -> DatasetStore {
    DatasetStore {
        spider_select: spider.map(String::from),
        gretel_select: gretel.map(String::from),
        gretel_insert: insert.map(String::from),
        gretel_update: update.map(String::from),
        gretel_delete: delete.map(String::from),
    }
}

#[test]
fn lines_drop_empty_and_strip_crlf() {
    let got = statements_from_text("a\n\nb\r\nc\n");
    assert_eq!(got, vec!["a".to_string(), "b".to_string(), "c".to_string()]);
}

#[test]
fn bare_carriage_return_ends_no_line() {
    let got = statements_from_text("x\r");
    assert_eq!(got, vec!["x\r".to_string()]);
}

#[test]
fn empty_text_yields_empty_corpus() {
    let got = statements_from_text("");
    assert!(got.is_empty());
}

#[test]
fn missing_file_yields_empty_corpus() {
    let data = store(None, None, None, None, None);
    assert!(load_spider_select(&data).is_empty());
    assert!(load_dml_statements(&data).is_empty());
}

#[test]
fn select_concatenates_spider_then_gretel() {
    let data = store(Some("s1\ns2\n"), Some("g1\n"), None, None, None);
    let got = load_select_statements(&data);
    assert_eq!(got, vec!["s1".to_string(), "s2".to_string(), "g1".to_string()]);
}

#[test]
fn dml_concatenates_all_groups_in_order() {
    let data = store(Some("s\n"), Some("g\n"), Some("i\n"), Some("u\n"), Some("d\n"));
    let got = load_dml_statements(&data);
    assert_eq!(
        got,
        vec![
            "s".to_string(),
            "g".to_string(),
            "i".to_string(),
            "u".to_string(),
            "d".to_string()
        ]
    );
    assert_eq!(load_insert_statements(&data), vec!["i".to_string()]);
    assert_eq!(load_delete_statements(&data), vec!["d".to_string()]);
}

#[test]
fn concatenate_joins_with_separator() {
    let stmts = vec!["SELECT 1".to_string(), "SELECT 2".to_string(), "SELECT 3".to_string()];
    assert_eq!(concatenate_statements(&stmts), "SELECT 1; SELECT 2; SELECT 3");
    let one = vec!["SELECT 1".to_string()];
    assert_eq!(concatenate_statements(&one), "SELECT 1");
    let none: Vec<String> = Vec::new();
    assert_eq!(concatenate_statements(&none), "");
}

#[test]
fn batch_takes_min_of_size_and_corpus_length() {
    let corpus = vec!["a".to_string(), "b".to_string(), "c".to_string()];
    assert_eq!(batch_of(&corpus, 2), "a; b");
    assert_eq!(batch_of(&corpus, 3), "a; b; c");
    assert_eq!(batch_of(&corpus, 10), "a; b; c");
    assert_eq!(batch_of(&corpus, 0), "");
}

#[test]
fn batch_splits_back_into_prefix() {
    let corpus = vec!["SELECT 1".to_string(), "SELECT 2".to_string(), "SELECT 3".to_string()];
    let batch = batch_of(&corpus, 2);
    let parts: Vec<&str> = batch.split("; ").collect();
    assert_eq!(parts, vec!["SELECT 1", "SELECT 2"]);
    assert_eq!(parts.len(), 2);
}

#[test]
fn sizes_without_extension_are_canonical() {
    let corpus = vec!["SELECT 1".to_string(); 100];
    assert_eq!(sizes_for(&corpus), vec![1, 10, 50, 100, 500, 1000]);
    let large = vec!["SELECT 1".to_string(); 1500];
    assert_eq!(sizes_for(&large), vec![1, 10, 50, 100, 500, 1000]);
}

#[test]
fn sizes_between_500_and_1000_append_corpus_length() {
    let corpus = vec!["SELECT 1".to_string(); 700];
    let sizes = sizes_for(&corpus);
    assert_eq!(sizes, vec![1, 10, 50, 100, 500, 700]);
    for w in sizes.windows(2) {
        assert!(w[0] < w[1]);
    }
}

#[test]
fn sizes_at_bounds_stay_canonical() {
    let at_500 = vec!["SELECT 1".to_string(); 500];
    assert_eq!(sizes_for(&at_500), vec![1, 10, 50, 100, 500, 1000]);
    let at_1000 = vec!["SELECT 1".to_string(); 1000];
    assert_eq!(sizes_for(&at_1000), vec![1, 10, 50, 100, 500, 1000]);
}
