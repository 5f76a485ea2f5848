use envcache::cache::cache_text;
use envcache::output::{render_output, OutputFormat};

fn pairs() -> Vec<(String, String)> {
    vec![
        ("A".to_string(), "x y".to_string()),
        ("B".to_string(), "it's".to_string()),
    ]
}

#[test]
fn export_output_is_the_cache_text() {
    let p = pairs();
    let out = render_output(OutputFormat::Export, &p).unwrap();
    assert_eq!(out, cache_text(&p));
    assert_eq!(out, "export A='x y'\nexport B='it'\\''s'\n");
}

#[test]
fn dotenv_output() {
    let out = render_output(OutputFormat::Dotenv, &pairs()).unwrap();
    assert_eq!(out, "A=x y\nB=it's\n");
}

#[test]
fn json_output() {
    let p = vec![("K".to_string(), "v\"q".to_string())];
    let out = render_output(OutputFormat::Json, &p).unwrap();
    assert_eq!(out, "{\n  \"K\": \"v\\\"q\"\n}\n");
    let empty = render_output(OutputFormat::Json, &[]).unwrap();
    assert_eq!(empty, "{}\n");
}

#[test]
fn json_output_keeps_the_last_value_of_a_name() {
    let p = vec![
        ("K".to_string(), "1".to_string()),
        ("L".to_string(), "x".to_string()),
        ("K".to_string(), "2".to_string()),
    ];
    let out = render_output(OutputFormat::Json, &p).unwrap();
    assert!(out.contains("\"K\": \"2\""));
    assert!(!out.contains("\"K\": \"1\""));
    assert!(out.contains("\"L\": \"x\""));
}

#[test]
fn json_output_escapes_like_serde_json() {
    let p = vec![("A\"\\".to_string(), "\u{1}\t\n\r\u{8}\u{c}\u{1f}\u{e9}/\u{7f}".to_string())];
    let out = render_output(OutputFormat::Json, &p).unwrap();
    assert_eq!(out, "{\n  \"A\\\"\\\\\": \"\\u0001\\t\\n\\r\\b\\f\\u001f\u{e9}/\u{7f}\"\n}\n");
    let two = vec![("A".to_string(), "1".to_string()), ("B".to_string(), "2".to_string())];
    let out = render_output(OutputFormat::Json, &two).unwrap();
    assert!(
        out == "{\n  \"A\": \"1\",\n  \"B\": \"2\"\n}\n"
            || out == "{\n  \"B\": \"2\",\n  \"A\": \"1\"\n}\n"
    );
}
