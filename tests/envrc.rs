use tf::{contains_bytes, set_env, EnvrcError, LineIterator, SetEnv};

fn switch(doc: &str, new_env: &str) -> Result<String, EnvrcError> {
    let opts = SetEnv { new_env: new_env.to_string() };
    set_env(&opts, doc.as_bytes().to_vec()).map(|v| String::from_utf8(v).unwrap())
}

#[test]
fn set_env_replaces_the_env_line() {
    let out = switch("export PATH=/x\nexport ENV=dev\nexport FOO=1\n", "prod").unwrap();
    assert_eq!(out, "export PATH=/x\nexport ENV=prod\nexport FOO=1\n");
}

#[test]
fn set_env_single_marked_line_keeps_the_others() {
    let out = switch("# header\n\nexport ENV=staging\nexport AWS_REGION=eu-west-1\n", "dev").unwrap();
    assert_eq!(out, "# header\n\nexport ENV=dev\nexport AWS_REGION=eu-west-1\n");
}

#[test]
fn set_env_without_marker_leaves_document_unchanged() {
    let doc = "export PATH=/x\nexport FOO=1\n";
    assert_eq!(switch(doc, "prod").unwrap(), doc);
}

#[test]
fn set_env_empty_document_stays_empty() {
    assert_eq!(switch("", "prod").unwrap(), "");
}

#[test]
fn set_env_replaces_every_marked_line() {
    let out = switch("export ENV=a\nx=1\n  export ENVIRONMENT=b\n", "c").unwrap();
    assert_eq!(out, "export ENV=c\nx=1\nexport ENV=c\n");
}

#[test]
fn set_env_is_idempotent() {
    let doc = "export PATH=/x\nexport ENV=dev\nexport ENV=qa\nexport FOO=1";
    let once = switch(doc, "prod").unwrap();
    let twice = switch(&once, "prod").unwrap();
    assert_eq!(once, twice);
    assert_eq!(once, "export PATH=/x\nexport ENV=prod\nexport ENV=prod\nexport FOO=1");
}

#[test]
fn set_env_terminates_unterminated_marked_last_line() {
    assert_eq!(switch("a=1\nexport ENV=dev", "prod").unwrap(), "a=1\nexport ENV=prod\n");
}

#[test]
fn set_env_keeps_unicode_lines() {
    let out = switch("# héllo wörld\nexport ENV=dev\n", "ünï").unwrap();
    assert_eq!(out, "# héllo wörld\nexport ENV=ünï\n");
}

#[test]
fn set_env_rejects_invalid_utf8() {
    let opts = SetEnv { new_env: "prod".to_string() };
    let doc = vec![b'a', b'\n', 0xff, 0xfe, b'\n', b'e'];
    assert_eq!(set_env(&opts, doc), Err(EnvrcError::NotUtf8));
    assert_eq!(EnvrcError::NotUtf8.message(), "envrc appears to not be valid UTF-8");
}

#[test]
fn set_env_rejects_invalid_utf8_in_unmarked_line() {
    let opts = SetEnv { new_env: "prod".to_string() };
    let doc = vec![b'e', b'x', 0xc3, b'\n'];
    assert_eq!(set_env(&opts, doc), Err(EnvrcError::NotUtf8));
}

#[test]
fn line_iterator_yields_delimited_chunks() {
    let mut it = LineIterator::new(b'\n', b"ab\n\ncd".to_vec());
    assert_eq!(it.next(), Some(b"ab\n".to_vec()));
    assert_eq!(it.next(), Some(b"\n".to_vec()));
    assert_eq!(it.next(), Some(b"cd".to_vec()));
    assert_eq!(it.next(), None);
    assert_eq!(it.next(), None);
}

#[test]
fn line_iterator_other_delimiter() {
    let mut it = LineIterator::new(b';', b"a;b;".to_vec());
    assert_eq!(it.next(), Some(b"a;".to_vec()));
    assert_eq!(it.next(), Some(b"b;".to_vec()));
    assert_eq!(it.next(), None);
}

#[test]
fn line_iterator_empty_input() {
    let mut it = LineIterator::new(b'\n', Vec::new());
    assert_eq!(it.next(), None);
}

#[test]
fn contains_bytes_finds_runs() {
    assert!(contains_bytes(b"  export ENV=x", b"export ENV"));
    assert!(!contains_bytes(b"export EN", b"export ENV"));
    assert!(!contains_bytes(b"export env=x", b"export ENV"));
    assert!(contains_bytes(b"abc", b""));
    assert!(contains_bytes(b"abc", b"abc"));
    assert!(!contains_bytes(b"", b"a"));
}
