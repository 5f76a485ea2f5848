use envcache::resolve::{apply_post_processor, op_output_value, resolve_secrets};
use envcache::secrets::{PostProcessor, SecretDef};

#[test]
fn test_strip_whitespace() {
    let result = apply_post_processor("hello \n world\r\n", &PostProcessor::StripWhitespace);
    assert_eq!(result, "helloworld");
}

#[test]
fn test_strip_whitespace_no_change() {
    let result = apply_post_processor("clean-value", &PostProcessor::StripWhitespace);
    assert_eq!(result, "clean-value");
}

#[test]
fn strip_whitespace_removes_unicode_whitespace() {
    let result = apply_post_processor("a\u{a0}b\u{3000}c\td\u{2028}e\u{85}f", &PostProcessor::StripWhitespace);
    assert_eq!(result, "abcdef");
    let once = apply_post_processor(" x y ", &PostProcessor::StripWhitespace);
    let twice = apply_post_processor(&once, &PostProcessor::StripWhitespace);
    assert_eq!(once, twice);
}

#[test]
fn op_output_drops_trailing_newlines_only() {
    assert_eq!(op_output_value("\nvalue\n\n\n"), "\nvalue");
    assert_eq!(op_output_value("value\r\n"), "value\r");
    assert_eq!(op_output_value(""), "");
}

fn def(name: &str, pp: Option<PostProcessor>) -> SecretDef {
    SecretDef {
        var_name: name.to_string(),
        op_uri: format!("op://vault/{}/field", name),
        post_processor: pp,
    }
}

#[test]
fn resolve_keeps_order_and_skips_failures() {
    let secrets = vec![
        def("A", None),
        def("B", None),
        def("C", Some(PostProcessor::StripWhitespace)),
    ];
    let outputs = vec![Some("one\n".to_string()), None, Some(" t w o \n".to_string())];
    let resolved = resolve_secrets(&secrets, &outputs);
    assert_eq!(
        resolved,
        vec![
            ("A".to_string(), "one".to_string()),
            ("C".to_string(), "two".to_string()),
        ]
    );
    assert_eq!(secrets.len() - resolved.len(), 1);
}
