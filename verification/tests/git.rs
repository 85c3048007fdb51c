use gli::error::GliError;
use gli::git::{config_value, parse_batch, parse_commit_object, parse_identity, parse_ref_lines};

const OBJ: &str = "tree 4b825dc642cb6eb9a060e54bf8d69288fbee4904\n\
parent 1111111111111111111111111111111111111111\n\
author Alice Smith <alice@example.com> 1700000123 +0100\n\
committer Alice Smith <alice@example.com> 1700000123 +0100\n\
\n\
Comment\n\nhello\n\nOp: comment\n";

fn record(sha: &str, content: &[u8]) -> Vec<u8> {
    let mut out = format!("{sha} commit {}\n", content.len()).into_bytes();
    out.extend_from_slice(content);
    out.push(b'\n');
    out
}

#[test]
fn identity_line_gives_name_email_and_time() {
    let (n, e, t) = parse_identity("Alice Smith <alice@example.com> 1700000123 +0100");
    assert_eq!(n, "Alice Smith");
    assert_eq!(e, "alice@example.com");
    assert_eq!(t, 1700000123);
    let (n, e, t) = parse_identity("  nobody  ");
    assert_eq!((n.as_str(), e.as_str(), t), ("nobody", "", 0));
    let (_, _, t) = parse_identity("Old <o@x> -42 +0000");
    assert_eq!(t, -42);
    let (_, _, t) = parse_identity("Odd <o@x> soon +0000");
    assert_eq!(t, 0);
}

#[test]
fn commit_object_headers_and_message() {
    let c = parse_commit_object("abc".into(), OBJ.as_bytes());
    assert_eq!(c.sha, "abc");
    assert_eq!(c.parents, vec!["1111111111111111111111111111111111111111".to_string()]);
    assert_eq!(c.author_name, "Alice Smith");
    assert_eq!(c.author_email, "alice@example.com");
    assert_eq!(c.author_time, 1700000123);
    assert_eq!(c.message, "Comment\n\nhello\n\nOp: comment\n");
}

#[test]
fn commit_object_without_blank_line_has_no_message() {
    let c = parse_commit_object("s".into(), b"tree t\nauthor A <a@b> 5 +0000");
    assert!(c.parents.is_empty());
    assert_eq!(c.author_name, "A");
    assert_eq!(c.author_time, 5);
    assert_eq!(c.message, "");
}

#[test]
fn invalid_utf8_is_replaced_not_fatal() {
    let content = b"tree t\n\nbad \xff byte".to_vec();
    let c = parse_commit_object("s".into(), &content);
    assert_eq!(c.message, "bad \u{fffd} byte");
}

#[test]
fn batch_reads_every_record_in_order() {
    let mut out = record("aaa", OBJ.as_bytes());
    out.extend(record("bbb", b"tree t\nparent aaa\n\nsecond"));
    let cs = parse_batch(&out).unwrap();
    assert_eq!(cs.len(), 2);
    assert_eq!(cs[0].sha, "aaa");
    assert_eq!(cs[0].message, "Comment\n\nhello\n\nOp: comment\n");
    assert_eq!(cs[1].sha, "bbb");
    assert_eq!(cs[1].parents, vec!["aaa".to_string()]);
    assert_eq!(cs[1].message, "second");
}

#[test]
fn batch_content_may_hold_any_byte() {
    let content = b"tree t\n\nrecord\x1eseparator\nand a newline\n";
    let out = record("ccc", content);
    let cs = parse_batch(&out).unwrap();
    assert_eq!(cs.len(), 1);
    assert_eq!(cs[0].message, "record\u{1e}separator\nand a newline\n");
}

#[test]
fn batch_stops_at_a_missing_object() {
    let mut out = record("aaa", b"tree t\n\none");
    out.extend_from_slice(b"deadbeef missing\n");
    out.extend(record("bbb", b"tree t\n\ntwo"));
    let cs = parse_batch(&out).unwrap();
    assert_eq!(cs.len(), 1);
    assert!(parse_batch(b"").unwrap().is_empty());
    assert!(parse_batch(b"no newline at all").unwrap().is_empty());
}

#[test]
fn batch_errors_on_a_bad_size_or_truncated_content() {
    match parse_batch(b"aaa commit ten\nxx\n") {
        Err(GliError::Git(m)) => assert_eq!(m, "bad cat-file size in `aaa commit ten`"),
        _ => panic!("expected a bad size error"),
    }
    match parse_batch(b"aaa commit 100\nshort\n") {
        Err(GliError::Git(m)) => assert_eq!(m, "truncated cat-file output"),
        _ => panic!("expected a truncation error"),
    }
    // A header with a fourth space-separated part ends the reading.
    assert!(parse_batch(b"aaa commit 2 \nxy\n").unwrap().is_empty());
    assert_eq!(parse_batch(b"aaa commit +2\nxy\n").unwrap()[0].sha, "aaa");
}

#[test]
fn ref_lines_split_at_nul_and_strip_the_issue_namespace() {
    let out = "refs/issues/0191aaaa\u{0}1234\nrefs/issues/0191bbbb\u{0}5678\nno nul here\n";
    let es = parse_ref_lines(out, true);
    assert_eq!(es.len(), 2);
    assert_eq!(es[0].uuid, "0191aaaa");
    assert_eq!(es[0].tip, "1234");
    assert_eq!(es[1].uuid, "0191bbbb");
    assert_eq!(es[1].tip, "5678");
    let raw = parse_ref_lines("refs/remotes/origin/issues/x\u{0}99", false);
    assert_eq!(raw[0].uuid, "refs/remotes/origin/issues/x");
    assert_eq!(raw[0].tip, "99");
    assert!(parse_ref_lines("", true).is_empty());
}

#[test]
fn config_value_is_trimmed_and_empty_means_unset() {
    assert_eq!(config_value("  json \n").as_deref(), Some("json"));
    assert_eq!(config_value(" \n"), None);
    assert_eq!(config_value(""), None);
}
