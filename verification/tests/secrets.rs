use envcache::secrets::{hash_secrets_file, parse_secrets_file, PostProcessor, SecretWarning};

#[test]
fn test_parse_basic() {
    let secrets = parse_secrets_file("MY_VAR|op://vault/item/password\n").secrets;
    assert_eq!(secrets.len(), 1);
    assert_eq!(secrets[0].var_name, "MY_VAR");
    assert_eq!(secrets[0].op_uri, "op://vault/item/password");
    assert!(secrets[0].post_processor.is_none());
}

#[test]
fn test_parse_with_post_processor() {
    let secrets = parse_secrets_file("TOKEN|op://vault/item/password|strip_whitespace\n").secrets;
    assert_eq!(secrets.len(), 1);
    assert!(matches!(
        secrets[0].post_processor,
        Some(PostProcessor::StripWhitespace)
    ));
}

#[test]
fn test_parse_skips_comments_and_blanks() {
    let secrets = parse_secrets_file("# comment\n\nMY_VAR|op://vault/item/field\n# another\n").secrets;
    assert_eq!(secrets.len(), 1);
}

#[test]
fn test_hash_changes_on_content_change() {
    let h1 = hash_secrets_file(b"VAR1|op://vault/item/field\n");
    let h2 = hash_secrets_file(b"VAR1|op://vault/item/field\nVAR2|op://vault/item/other\n");
    assert_ne!(h1, h2);
}

#[test]
fn hash_values() {
    assert_eq!(hash_secrets_file(b""), "0000000000000000");
    // length 1 + 1 * 1
    assert_eq!(hash_secrets_file(&[1]), "0000000000000002");
    // length 2 + 0xff * 1 + 0x10 * 2 = 2 + 255 + 32 = 289 = 0x121
    assert_eq!(hash_secrets_file(&[0xff, 0x10]), "0000000000000121");
    assert_eq!(hash_secrets_file(b"abc").len(), 16);
}

#[test]
fn parse_warnings_and_fields() {
    let parsed = parse_secrets_file(
        "  A|op://a|strip_whitespace  \r\nnopipe\nB|op://b|lowercase\nC|op://c|x|y\nD|\n#E|op://e\n",
    );
    let s = &parsed.secrets;
    assert_eq!(s.len(), 4);
    assert_eq!(s[0].var_name, "A");
    assert_eq!(s[0].op_uri, "op://a");
    assert_eq!(s[0].post_processor, Some(PostProcessor::StripWhitespace));
    assert_eq!(s[1].var_name, "B");
    assert_eq!(s[1].post_processor, None);
    assert_eq!(s[2].op_uri, "op://c");
    assert_eq!(s[3].var_name, "D");
    assert_eq!(s[3].op_uri, "");
    let w = &parsed.warnings;
    assert_eq!(w.len(), 3);
    assert!(matches!(&w[0], SecretWarning::MalformedLine(l) if l == "nopipe"));
    assert!(matches!(&w[1], SecretWarning::UnknownPostProcessor { processor, var_name }
        if processor == "lowercase" && var_name == "B"));
    assert!(matches!(&w[2], SecretWarning::UnknownPostProcessor { processor, var_name }
        if processor == "x|y" && var_name == "C"));
}

#[test]
fn parse_empty_file() {
    let parsed = parse_secrets_file("");
    assert!(parsed.secrets.is_empty());
    assert!(parsed.warnings.is_empty());
}

fn names(content: &str) -> Vec<(String, String, Option<PostProcessor>)> {
    parse_secrets_file(content)
        .secrets
        .into_iter()
        .map(|d| (d.var_name, d.op_uri, d.post_processor))
        .collect()
}

#[test]
fn crlf_line_breaks_give_the_same_secrets() {
    let c = "A|op://a|strip_whitespace\n# c\nB|op://b\r\nC|op://c";
    assert_eq!(names(&c.replace('\n', "\r\n")), names(c));
}

#[test]
fn joined_files_give_joined_secrets() {
    let c1 = "A|op://a\nB|op://b\n";
    let c2 = "C|op://c|strip_whitespace";
    let mut expected = names(c1);
    expected.extend(names(c2));
    assert_eq!(names(&format!("{}{}", c1, c2)), expected);
}

#[test]
fn inserted_comment_or_blank_changes_nothing() {
    let c = "A|op://a\nB|op://b\n";
    assert_eq!(names("A|op://a\n   # note\nB|op://b\n"), names(c));
    assert_eq!(names("A|op://a\n \t\nB|op://b\n"), names(c));
}

#[test]
fn appending_a_byte_moves_the_hash() {
    let c: &[u8] = b"VAR|x";
    let h = u64::from_str_radix(&hash_secrets_file(c), 16).unwrap();
    let mut d = c.to_vec();
    d.push(7);
    let h2 = u64::from_str_radix(&hash_secrets_file(&d), 16).unwrap();
    assert_eq!(h2, h.wrapping_add(1 + 7 * (c.len() as u64 + 1)));
}
