use candle::{
    extract_values, indentation, is_present, parse_directives, print_tree, trim_start_n, DomNode,
    ElementData, NodeKind,
};

fn element(depth: usize, name: &str, tag: &str, attrs: &[(&str, &str)]) -> DomNode {
    DomNode {
        depth,
        kind: NodeKind::Element(ElementData {
            name: name.to_string(),
            tag: tag.to_string(),
            attrs: attrs
                .iter()
                .map(|(k, v)| (k.to_string(), v.to_string()))
                .collect(),
        }),
    }
}

fn text(depth: usize, t: &str) -> DomNode {
    DomNode {
        depth,
        kind: NodeKind::Text(t.to_string()),
    }
}

#[test]
fn test_trim_start_n_exact_spaces() {
    let four_spaces = format!("{:n$}", "", n = 4);
    let input = format!("{}there", four_spaces);
    let result = trim_start_n(&input, 4);

    assert_eq!(result, "there");
}

#[test]
fn test_trim_start_n_extra_space() {
    let five_spaces = format!("{:n$}", "", n = 5);
    let input = format!("{}there", five_spaces);
    let result = trim_start_n(&input, 4);

    assert_eq!(result, " there");
}

#[test]
fn test_trim_start_n_trimming_more_than_the_length_of_the_string() {
    let one_space = " ";
    let input = format!("{}there", one_space);
    let result = trim_start_n(&input, 10);

    assert_eq!(result, "there");
}

#[test]
fn indentation_is_two_spaces_per_level() {
    assert_eq!(indentation(0), "");
    assert_eq!(indentation(3), "      ");
}

#[test]
fn presence_of_text() {
    assert!(!is_present(" \n\t\u{a0}"));
    assert!(is_present("  x "));
    assert!(!is_present(""));
}

#[test]
fn void_element_ignores_children() {
    let nodes = vec![
        element(0, "br", "<br>", &[]),
        text(1, "hidden"),
        element(1, "b", "<b>", &[]),
    ];
    assert_eq!(print_tree(&nodes, 0, 1), "  <br></br>");
}

#[test]
fn whitespace_only_child_leaves_no_blank_line() {
    let nodes = vec![element(0, "p", "<p>", &[]), text(1, " \n  ")];
    assert_eq!(print_tree(&nodes, 0, 0), "<p>\n</p>");
}

#[test]
fn script_lines_shift_together_with_the_level() {
    let code = "\n    a();\n      b();\n  c();\n\n";
    let nodes = vec![element(0, "script", "<script>", &[]), text(1, code)];
    assert_eq!(
        print_tree(&nodes, 0, 0),
        "<script>\n  a();\n    b();\n  c();\n</script>"
    );
    assert_eq!(
        print_tree(&nodes, 0, 2),
        "    <script>\n      a();\n        b();\n      c();\n    </script>"
    );
}

#[test]
fn comment_is_trimmed_and_text_kept_as_is() {
    let nodes = vec![
        element(0, "div", "<div id=\"d\">", &[("id", "d")]),
        DomNode {
            depth: 1,
            kind: NodeKind::Comment("  note \n".to_string()),
        },
        text(1, " a  b "),
        DomNode {
            depth: 1,
            kind: NodeKind::Other,
        },
    ];
    assert_eq!(
        print_tree(&nodes, 0, 0),
        "<div id=\"d\">\n  <!-- note -->\n   a  b \n</div>"
    );
}

#[test]
fn values_are_grouped_by_element_then_finder() {
    let finders = parse_directives("h2 attr{class}, h2 {text}").unwrap();
    let nodes = vec![
        DomNode {
            depth: 0,
            kind: NodeKind::Other,
        },
        element(1, "h2", "<h2 class=\"foo\">", &[("class", "foo")]),
        text(2, "Hello"),
        element(1, "h2", "<h2 class=\"bar\">", &[("class", "bar")]),
        text(2, "Hi"),
    ];
    let row = vec![false, true, false, true, false];
    let table = vec![row.clone(), row];
    let values = extract_values(&nodes, &finders, &table);
    assert_eq!(values, vec!["foo", "Hello", "bar", "Hi"]);
}

#[test]
fn values_skip_unmatched_and_non_elements() {
    let finders = parse_directives("p {text}, p {html}").unwrap();
    let nodes = vec![element(0, "p", "<p>", &[]), text(1, "x")];
    let table = vec![vec![true, true], vec![false]];
    let values = extract_values(&nodes, &finders, &table);
    assert_eq!(values, vec!["x"]);
}
