use candle::{meta_charset, parse_directives, Operation};

fn sources_and_operations(spec: &str) -> Vec<(String, Operation)> {
    parse_directives(spec)
        .unwrap()
        .into_iter()
        .map(|f| {
            let op = match f.operation() {
                Operation::Text => Operation::Text,
                Operation::Html => Operation::Html,
                Operation::Attr(name) => Operation::Attr(name.clone()),
            };
            (f.source().clone(), op)
        })
        .collect()
}

#[test]
fn clauses_come_out_in_written_order() {
    let found = sources_and_operations("h1 attr{class}, div p {html},  span {text}");
    assert_eq!(
        found,
        vec![
            ("h1".to_string(), Operation::Attr("class".to_string())),
            ("div p".to_string(), Operation::Html),
            ("span".to_string(), Operation::Text),
        ]
    );
}

#[test]
fn empty_directive_prints_the_root_element() {
    let found = sources_and_operations("");
    assert_eq!(found, vec![("html".to_string(), Operation::Html)]);
}

#[test]
fn clause_without_operation_is_passed_over() {
    let found = sources_and_operations("h1, h2 {text}");
    assert_eq!(found, vec![("h1, h2".to_string(), Operation::Text)]);
}

#[test]
fn directive_without_any_clause_is_an_error() {
    let err = parse_directives("h1 {bold}").err().unwrap();
    assert_eq!(err, "Please specify {text}, {html}, or attr{ATTRIBUTE}");
}

#[test]
fn attr_needs_a_selector_and_a_name() {
    assert!(parse_directives("attr{class}").is_err());
    assert!(parse_directives("p attr{}").is_err());
}

#[test]
fn meta_charset_ignores_case_of_keywords() {
    assert_eq!(
        meta_charset("<head><META  Charset=\"ISO-8859-1\">"),
        Some("ISO-8859-1".to_string())
    );
    assert_eq!(meta_charset("<meta charset=''>"), None);
    assert_eq!(meta_charset("<metacharset='x'>"), None);
    assert_eq!(meta_charset("<meta charset='a' ><meta charset='b'>"), Some("a".to_string()));
}

#[test]
fn attr_named_like_a_mark_reads_as_that_mark() {
    let found = sources_and_operations("p attr{text}");
    assert_eq!(found, vec![("p attr".to_string(), Operation::Text)]);
}
