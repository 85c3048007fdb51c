use gli::error::GliError;
use gli::model::Op;
use gli::store::check_size;

fn reason_of(message: &str) -> String {
    match Op::from_commit_message(message, "abc1234") {
        Err(GliError::MalformedOp { commit, reason }) => {
            assert_eq!(commit, "abc1234");
            reason
        }
        Err(other) => panic!("unexpected error: {}", other.message()),
        Ok(_) => panic!("expected a malformed operation"),
    }
}

#[test]
fn unreadable_operations_say_why() {
    assert_eq!(reason_of("Comment\n\nhi\n"), "missing Op trailer");
    assert_eq!(reason_of("C\n\nOp: comment\n"), "missing Op-Id trailer");
    assert_eq!(reason_of("C\n\nOp: comment\nOp-Id: 1\n"), "missing Lamport trailer");
    assert_eq!(
        reason_of("C\n\nOp: comment\nOp-Id: 1\nLamport: -3\nActor: a\n"),
        "Lamport is not a non-negative integer"
    );
    assert_eq!(reason_of("C\n\nOp: comment\nOp-Id: 1\nLamport: 3\n"), "missing Actor trailer");
    assert_eq!(
        reason_of("C\n\nOp: frobnicate\nOp-Id: 1\nLamport: 3\nActor: a\n"),
        "unknown Op type 'frobnicate'"
    );
    assert_eq!(
        reason_of("S\n\nOp: set-state\nState: maybe\nOp-Id: 1\nLamport: 3\nActor: a\n"),
        "set-state has no valid State trailer"
    );
    assert_eq!(
        reason_of("L\n\nOp: add-label\nOp-Id: 1\nLamport: 3\nActor: a\n"),
        "add-label has no Label trailer"
    );
}

#[test]
fn every_error_has_its_message() {
    let cases: Vec<(GliError, &str)> = vec![
        (
            GliError::NotAGitRepo,
            "not inside a git repository (run this from a git working tree, or `git init` first)",
        ),
        (GliError::UnknownIssue("bob-9".into()), "no issue matches 'bob-9'"),
        (
            GliError::AmbiguousId {
                query: "01".into(),
                candidates: vec!["alice-1 (01a)".into(), "bob-1 (01b)".into()],
            },
            "id '01' is ambiguous; candidates: alice-1 (01a), bob-1 (01b)",
        ),
        (
            GliError::NoActorIdentity,
            "could not determine an actor identity: set `git config user.email` or `user.name`",
        ),
        (
            GliError::MalformedOp { commit: "abc".into(), reason: "missing Op trailer".into() },
            "malformed operation in commit abc: missing Op trailer",
        ),
        (
            GliError::InvalidLabel { label: "a,b\n".into(), reason: "no commas".into() },
            "invalid label \"a,b\\n\": no commas",
        ),
        (GliError::Git("boom".into()), "git command failed: boom"),
        (
            GliError::FieldTooLarge { field: "title".into(), size: 9, limit: 8 },
            "title is too large (9 bytes; the limit is 8 bytes)",
        ),
        (
            GliError::Conflict { uuid: "u1".into(), attempts: 5 },
            "issue u1 changed concurrently; gave up after 5 attempts",
        ),
    ];
    for (e, text) in cases {
        assert_eq!(e.message(), text);
    }
}

#[test]
fn oversized_field_error_names_field_size_and_limit() {
    let big = "é".repeat(gli::store::MAX_FIELD_BYTES / 2 + 1);
    match check_size("comment", &big) {
        Err(GliError::FieldTooLarge { field, size, limit }) => {
            assert_eq!(field, "comment");
            assert_eq!(size, big.len());
            assert_eq!(limit, gli::store::MAX_FIELD_BYTES);
        }
        _ => panic!("expected FieldTooLarge"),
    }
}
