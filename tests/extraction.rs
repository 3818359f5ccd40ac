use candle::{decode_html, parse, Inputs};

fn build_inputs(html: &str, selector: &str) -> Inputs {
    Inputs {
        html: html.to_string(),
        selector: selector.to_string(),
    }
}

#[test]
fn test_showing_inner_text() {
    let html = r#"
            <!DOCTYPE html>
            <meta charset="utf-8">
            <title>Hello, world!</title>
            <h1 class="foo">Hello, <i>world!</i></h1>
        "#;
    let selector = "h1 i {text}";
    let result = parse(build_inputs(html, selector));
    assert_eq!(result, Ok(vec!["world!".to_string()]));
}

#[test]
fn test_bad_selector() {
    let html = r#"
            <!DOCTYPE html>
            <meta charset="utf-8">
            <title>Hello, world!</title>
            <h1 class="foo">Hello, <i>world!</i></h1>
        "#;
    let selector = "h1^3 {text}";
    let err = parse(build_inputs(html, selector)).expect_err("not an Err");
    assert!(err.starts_with("'h1^3' is a bad CSS selector:"));
}

#[test]
fn test_showing_specific_attr() {
    let html = r#"
            <!DOCTYPE html>
            <meta charset="utf-8">
            <title>Hello, world!</title>
            <h1 class="foo">Hello, <i>world!</i></h1>
        "#;
    let selector = "h1 attr{class}";
    let result = parse(build_inputs(html, selector));
    assert_eq!(result, Ok(vec!["foo".to_string()]));
}

#[test]
fn test_multiple_selectors() {
    let html = r#"
            <!DOCTYPE html>
            <meta charset="utf-8">
            <title>Hello, world!</title>
            <h1 class="foo">Hello, <i>world!</i></h1>
        "#;
    let selector = "h1 attr{class}, h1 {text}";
    let result = parse(build_inputs(html, selector));
    assert_eq!(
        result,
        Ok(vec!["foo".to_string(), "Hello, world!".to_string()])
    );
}

#[test]
fn test_multiple_finders_on_same_node_shown_together() {
    let html = r#"
            <!DOCTYPE html>
            <meta charset="utf-8">
            <title>Hello, world!</title>
            <h2 class="foo">Hello</h2>
            <h2 class="bar">Hi</h2>
        "#;
    let selector = "h2 attr{class}, h2 {text}";
    let result = parse(build_inputs(html, selector));
    // the class and text for a given node are shown together
    // i.e. it's class-text-class-text, rather than class-class-text-text
    let expected_result = vec![
        "foo".to_string(),
        "Hello".to_string(),
        "bar".to_string(),
        "Hi".to_string(),
    ];
    assert_eq!(result, Ok(expected_result));
}

#[test]
fn test_html_operation() {
    let html = r#"
            <!DOCTYPE html>
            <meta charset="utf-8">
            <title>Hello, world!</title>
            <h1 class="foo">Hello,<i>world!<strong>and more</strong></i><!--hello    --></h1>
        "#;
    let selector = "h1 {html}";
    let result = parse(build_inputs(html, selector));
    let expected_result = r#"
<h1 class="foo">
  Hello,
  <i>
    world!
    <strong>
      and more
    </strong>
  </i>
  <!-- hello -->
</h1>"#
        .trim_start()
        .to_string();
    assert_eq!(result, Ok(vec![expected_result]));
}

#[test]
fn test_html_operation_with_self_closing_tags() {
    let html = r#"
            <!DOCTYPE html>
            <meta charset="utf-8">
            <title>Hello, world!</title>
            <h1 class="foo">Hello,<i>world!<strong>and more</strong></i><!--hello    --></h1>
        "#;
    let selector = "meta {html}";
    let result = parse(build_inputs(html, selector));
    let expected_result = r#"<meta charset="utf-8"></meta>"#.to_string();
    assert_eq!(result, Ok(vec![expected_result]));
}

#[test]
fn test_html_operation_with_siblings() {
    let html = r#"
            <!DOCTYPE html>
            <meta charset="utf-8">
            <title>Hello, world!</title>
            <body>
                <div>foo</div>
                <div>bar</div>
            </body>
        "#;
    let selector = "body {html}";
    let result = parse(build_inputs(html, selector));
    let expected_result = r#"
<body>
  <div>
    foo
  </div>
  <div>
    bar
  </div>
</body>"#
        .trim_start()
        .to_string();
    assert_eq!(result, Ok(vec![expected_result]));
}

#[test]
fn test_printing_indented_js() {
    let input = r#"
            <body>
            <div>
                <div>
                <script>
                    var foo = "foo";
                        var bar = "bar";
                function x(){
                      return true;
                    }
                </script>
                </div>
            </div>
            </body>
        "#;
    let output = r#"
<body>
  <div>
    <div>
      <script>
        var foo = "foo";
            var bar = "bar";
        function x(){
          return true;
        }
      </script>
    </div>
  </div>
</body>"#
        .trim_start()
        .to_string();
    let selector = "body {html}";
    let result = parse(build_inputs(input, selector));
    assert_eq!(result, Ok(vec![output]));
}

#[test]
fn test_empty_script_tag() {
    let input = r#"<body><script></script></body>"#;
    let output = r#"
<body>
  <script>
  </script>
</body>"#
        .trim_start()
        .to_string();
    let selector = "body {html}";
    let result = parse(build_inputs(input, selector));
    assert_eq!(result, Ok(vec![output]));
}

#[test]
fn test_bad_operation() {
    let html = r#"
            <!DOCTYPE html>
            <meta charset="utf-8">
            <title>Hello, world!</title>
            <h1 class="foo">Hello, <i>world!</i></h1>
        "#;
    let selector = "h1";
    let result = parse(build_inputs(html, selector));
    assert_eq!(
        result,
        Err("Please specify {text}, {html}, or attr{ATTRIBUTE}".to_string())
    );
}

#[test]
fn test_less_than_1024_bytes_of_html() {
    let html = r#"
            <!DOCTYPE html>
            <meta charset="utf-8">
            <title>Hello, world!</title>
            <h1 class="foo">Hello, <i>world!</i></h1>
        "#;
    let result = Some(decode_html(html.as_bytes()));
    assert_eq!(result, Some(html.to_string()));
}

#[test]
fn empty_directive_prints_whole_document() {
    let html = "<!DOCTYPE html><title>T</title><body><p>x</p></body>";
    let result = parse(build_inputs(html, "")).unwrap();
    assert_eq!(result.len(), 1);
    assert_eq!(
        result[0],
        "<html>\n  <head>\n    <title>\n      T\n    </title>\n  </head>\n  <body>\n    <p>\n      x\n    </p>\n  </body>\n</html>"
    );
}

#[test]
fn bad_selector_message_names_the_selector() {
    let err = parse(build_inputs("<p>x</p>", "p, >> q {text}")).unwrap_err();
    assert!(err.starts_with("'p, >> q' is a bad CSS selector: "));
    assert!(err.len() > "'p, >> q' is a bad CSS selector: ".len());
}

#[test]
fn missing_attribute_gives_no_value() {
    let html = r#"<a href="x">one</a><a>two</a><a href="y">three</a>"#;
    let result = parse(build_inputs(html, "a attr{href}"));
    assert_eq!(result, Ok(vec!["x".to_string(), "y".to_string()]));
}

#[test]
fn text_of_nested_elements_in_document_order() {
    let html = "<div>a<p>b<i>c</i></p>d</div>";
    let result = parse(build_inputs(html, "div {text}, i {text}"));
    assert_eq!(result, Ok(vec!["abcd".to_string(), "c".to_string()]));
}

#[test]
fn charset_declared_early_redecodes_whole_buffer() {
    let mut bytes = b"<meta charset='windows-1252'><p>".to_vec();
    bytes.extend(std::iter::repeat(b'a').take(1100));
    bytes.push(0xE9);
    bytes.extend_from_slice(b"</p>");
    let text = decode_html(&bytes);
    assert!(text.ends_with("a\u{e9}</p>"));
    assert_eq!(text.chars().count(), bytes.len());
}

#[test]
fn without_charset_bytes_are_read_as_lossy_utf8() {
    let bytes = vec![b'<', b'p', b'>', 0xE9, b'<', b'/', b'p', b'>'];
    assert_eq!(decode_html(&bytes), "<p>\u{fffd}</p>");
}

#[test]
fn charset_declared_after_the_scanned_prefix_is_ignored() {
    let mut bytes = vec![b' '; 1100];
    bytes.extend_from_slice(b"<meta charset=\"windows-1252\">");
    bytes.push(0xE9);
    let text = decode_html(&bytes);
    assert!(text.ends_with("\u{fffd}"));
}

#[test]
fn unknown_charset_label_falls_back_to_utf8() {
    let bytes = b"<meta charset=\"no-such-charset\">caf\xc3\xa9".to_vec();
    assert_eq!(decode_html(&bytes), "<meta charset=\"no-such-charset\">caf\u{e9}");
}

#[test]
fn document_keeps_nodes_in_pre_order() {
    let document = candle::Document::parse("<p>a<b>c</b></p>");
    let nodes = document.nodes();
    let depths: Vec<usize> = nodes.iter().map(|n| n.depth).collect();
    // document, html, head, body, p, "a", b, "c"
    assert_eq!(depths, vec![0, 1, 2, 2, 3, 4, 4, 5]);
    let finders = candle::parse_directives("b {text}").unwrap();
    let hits = document.matches(&finders[0]);
    assert_eq!(hits, vec![false, false, false, false, false, false, true, false]);
    assert_eq!(candle::select_all(&document, &finders), vec!["c".to_string()]);
}
