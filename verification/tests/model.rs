use gli::model::{next_lamport, validate_label, Issue, Op, OpKind, State};

fn op(id: &str, lamport: u64, actor: &str, kind: OpKind) -> Op {
    Op::new(id.to_string(), lamport, actor.to_string(), kind)
}

fn create(id: &str, lamport: u64, title: &str) -> Op {
    op(
        id,
        lamport,
        "alice",
        OpKind::Create {
            title: title.to_string(),
            description: String::new(),
            labels: Vec::new(),
            assignee: None,
            priority: None,
        },
    )
}

#[test]
fn fold_requires_a_create() {
    let ops = vec![op("a", 1, "alice", OpKind::Comment { text: "hi".into() })];
    assert!(Issue::fold("uuid", &ops).is_err());
}

#[test]
fn lww_title_higher_lamport_wins_regardless_of_order() {
    // Apply the later-lamport op first; the fold must still pick it.
    let ops = vec![
        create("c", 1, "original"),
        op(
            "t2",
            5,
            "alice",
            OpKind::SetTitle {
                title: "newest".into(),
            },
        ),
        op(
            "t1",
            3,
            "alice",
            OpKind::SetTitle {
                title: "middle".into(),
            },
        ),
    ];
    let issue = Issue::fold("uuid", &ops).unwrap();
    assert_eq!(issue.title(), "newest");
}

#[test]
fn lww_same_lamport_breaks_by_op_id_deterministically() {
    // Two writes share a Lamport clock; the larger op-id must win, and the
    // outcome must not depend on the order the ops are folded in.
    let a = op("aaa", 4, "alice", OpKind::SetTitle { title: "a".into() });
    let b = op("bbb", 4, "alice", OpKind::SetTitle { title: "b".into() });
    let forward = Issue::fold("u", &[create("c", 1, "x"), a.clone(), b.clone()]).unwrap();
    let backward = Issue::fold("u", &[create("c", 1, "x"), b, a]).unwrap();
    assert_eq!(forward.title(), "b");
    assert_eq!(backward.title(), "b");
}

#[test]
fn state_is_lww() {
    let ops = vec![
        create("c", 1, "t"),
        op(
            "s1",
            2,
            "alice",
            OpKind::SetState {
                state: State::Closed,
                reason: Some("done".into()),
                fixed_by: None,
            },
        ),
        op(
            "s2",
            3,
            "alice",
            OpKind::SetState {
                state: State::Open,
                reason: None,
                fixed_by: None,
            },
        ),
    ];
    let issue = Issue::fold("u", &ops).unwrap();
    assert_eq!(issue.state().state, State::Open);
}

#[test]
fn orset_add_and_remove() {
    let ops = vec![
        create("c", 1, "t"),
        op(
            "l1",
            2,
            "alice",
            OpKind::AddLabel {
                label: "bug".into(),
            },
        ),
        op(
            "l2",
            3,
            "alice",
            OpKind::AddLabel {
                label: "urgent".into(),
            },
        ),
        op(
            "l3",
            4,
            "alice",
            OpKind::RemoveLabel {
                label: "urgent".into(),
            },
        ),
    ];
    let issue = Issue::fold("u", &ops).unwrap();
    assert_eq!(issue.labels(), vec!["bug".to_string()]);
    assert!(issue.labels.contains("bug"));
    assert!(!issue.labels.contains("urgent"));
    assert!(!issue.labels.contains("never-added"));
}

#[test]
fn orset_add_is_idempotent_per_tag() {
    // Re-applying the same add op (same tag) must not create a duplicate
    // tag, so a single later remove still clears the element.
    let add = op(
        "l1",
        2,
        "alice",
        OpKind::AddLabel {
            label: "bug".into(),
        },
    );
    let ops = vec![
        create("c", 1, "t"),
        add.clone(),
        add,
        op(
            "l2",
            3,
            "alice",
            OpKind::RemoveLabel {
                label: "bug".into(),
            },
        ),
    ];
    let issue = Issue::fold("u", &ops).unwrap();
    assert!(!issue.labels.contains("bug"));
}

#[test]
fn label_validation_rejects_comma_and_newline() {
    assert!(validate_label("ok").is_ok());
    assert!(validate_label("a,b").is_err());
    assert!(validate_label("a\nb").is_err());
    assert!(validate_label("  ").is_err());
}

#[test]
fn orset_readd_after_remove_is_present() {
    let ops = vec![
        create("c", 1, "t"),
        op(
            "l1",
            2,
            "alice",
            OpKind::AddLabel {
                label: "bug".into(),
            },
        ),
        op(
            "l2",
            3,
            "alice",
            OpKind::RemoveLabel {
                label: "bug".into(),
            },
        ),
        op(
            "l3",
            4,
            "alice",
            OpKind::AddLabel {
                label: "bug".into(),
            },
        ),
    ];
    let issue = Issue::fold("u", &ops).unwrap();
    assert!(issue.labels.contains("bug"));
}

#[test]
fn comments_are_grow_only_and_ordered_by_clock() {
    let ops = vec![
        create("c", 1, "t"),
        op(
            "m2",
            3,
            "alice",
            OpKind::Comment {
                text: "second".into(),
            },
        ),
        op(
            "m1",
            2,
            "bob",
            OpKind::Comment {
                text: "first".into(),
            },
        ),
    ];
    let issue = Issue::fold("u", &ops).unwrap();
    let texts: Vec<&str> = issue.comments.iter().map(|c| c.text.as_str()).collect();
    assert_eq!(texts, vec!["first", "second"]);
}

#[test]
fn comments_dedup_by_stable_op_id() {
    // The same comment op appearing twice (as it might after a naive sync)
    // must collapse to one: identity is the op-id, not position/content.
    let dup = op(
        "m1",
        2,
        "alice",
        OpKind::Comment {
            text: "hello".into(),
        },
    );
    let ops = vec![create("c", 1, "t"), dup.clone(), dup];
    let issue = Issue::fold("u", &ops).unwrap();
    assert_eq!(issue.comments.len(), 1);
}

#[test]
fn create_carries_initial_fields() {
    let ops = vec![op(
        "c",
        1,
        "alice",
        OpKind::Create {
            title: "T".into(),
            description: "D".into(),
            labels: vec!["a".into(), "b".into()],
            assignee: Some("bob".into()),
            priority: Some("high".into()),
        },
    )];
    let issue = Issue::fold("u", &ops).unwrap();
    assert_eq!(issue.title(), "T");
    assert_eq!(issue.description(), "D");
    assert_eq!(issue.assignee(), Some("bob"));
    assert_eq!(issue.priority(), Some("high"));
    assert_eq!(issue.labels(), vec!["a".to_string(), "b".to_string()]);
    assert_eq!(issue.state().state, State::Open);
}

#[test]
fn assignee_can_be_cleared() {
    let ops = vec![
        op(
            "c",
            1,
            "alice",
            OpKind::Create {
                title: "T".into(),
                description: String::new(),
                labels: Vec::new(),
                assignee: Some("bob".into()),
                priority: None,
            },
        ),
        op("a1", 2, "alice", OpKind::SetAssignee { assignee: None }),
    ];
    let issue = Issue::fold("u", &ops).unwrap();
    assert_eq!(issue.assignee(), None);
}

#[test]
fn next_lamport_advances() {
    let ops = vec![
        create("c", 1, "t"),
        op("x", 7, "alice", OpKind::Comment { text: "c".into() }),
    ];
    assert_eq!(next_lamport(&ops), 8);
    assert_eq!(next_lamport(&[]), 1);
}

// --- round-trip and forward-compat -------------------------------------

fn roundtrip(op: &Op) -> Op {
    let msg = op.to_commit_message();
    let mut parsed = Op::from_commit_message(&msg, "deadbeef").unwrap();
    // Provenance is not part of the serialized op; normalise for equality.
    parsed.commit = None;
    parsed
}

#[test]
fn roundtrip_every_op_kind() {
    let kinds = vec![
        OpKind::Create {
            title: "Title: with colon".into(),
            description: "Line one\n\nA paragraph that has\nNote: a trailer-looking line"
                .into(),
            labels: vec!["bug".into(), "p1".into()],
            assignee: Some("bob".into()),
            priority: Some("high".into()),
        },
        OpKind::Comment {
            text: "multi\nline\ncomment".into(),
        },
        OpKind::SetTitle {
            title: "new title".into(),
        },
        OpKind::SetDescription {
            description: "new\ndesc".into(),
        },
        OpKind::SetState {
            state: State::Closed,
            reason: Some("fixed".into()),
            fixed_by: Some("abc123".into()),
        },
        OpKind::SetAssignee {
            assignee: Some("carol".into()),
        },
        OpKind::SetAssignee { assignee: None },
        OpKind::SetPriority {
            priority: Some("low".into()),
        },
        OpKind::AddLabel {
            label: "triage".into(),
        },
        OpKind::RemoveLabel {
            label: "wontfix".into(),
        },
        OpKind::SetArchived { archived: true },
        OpKind::SetArchived { archived: false },
    ];
    for (i, kind) in kinds.into_iter().enumerate() {
        let original = op(&format!("op{i}"), (i + 1) as u64, "alice", kind);
        assert_eq!(roundtrip(&original), original, "op #{i} did not round-trip");
    }
}

#[test]
fn archived_is_lww() {
    // Default not archived; archive then restore folds to not-archived; a
    // higher-lamport archive wins regardless of fold order.
    let base = vec![create("c", 1, "t")];
    assert!(!Issue::fold("u", &base).unwrap().archived());

    let archived = vec![
        create("c", 1, "t"),
        op("a1", 2, "alice", OpKind::SetArchived { archived: true }),
    ];
    assert!(Issue::fold("u", &archived).unwrap().archived());

    let restored = vec![
        create("c", 1, "t"),
        op("a2", 3, "alice", OpKind::SetArchived { archived: false }),
        op("a1", 2, "alice", OpKind::SetArchived { archived: true }),
    ];
    assert!(!Issue::fold("u", &restored).unwrap().archived());
}

#[test]
fn parser_ignores_unknown_trailers_and_higher_version() {
    let msg = "Comment\n\nhello world\n\n\
               Op: comment\n\
               Op-Id: abc\n\
               Lamport: 9\n\
               Actor: alice\n\
               Format-Version: 99\n\
               X-Custom: something new\n\
               Reactions: 3\n";
    let parsed = Op::from_commit_message(msg, "sha").unwrap();
    assert_eq!(parsed.lamport, 9);
    assert_eq!(parsed.format_version, 99);
    assert!(matches!(parsed.kind, OpKind::Comment { text } if text == "hello world"));
}
