use gli::id::{actor_slug, assign_display_ids, new_uuid, resolve, Resolution};
use gli::model::{Issue, Lww, Op, OpKind, OrSet, State};

fn op(id: &str, lamport: u64, actor: &str, kind: OpKind) -> Op {
    Op::new(id.to_string(), lamport, actor.to_string(), kind)
}

fn create_op(id: &str, lamport: u64, actor: &str, title: &str) -> Op {
    op(
        id,
        lamport,
        actor,
        OpKind::Create {
            title: title.to_string(),
            description: String::new(),
            labels: Vec::new(),
            assignee: None,
            priority: None,
        },
    )
}

fn read_back(written: &Op) -> Op {
    let msg = written.to_commit_message();
    Op::from_commit_message(&msg, "c0ffee").unwrap()
}

#[test]
fn commit_message_round_trip_for_the_newer_op_kinds() {
    let kinds = vec![
        OpKind::AddAssignee { assignee: "dave".into() },
        OpKind::RemoveAssignee { assignee: "erin".into() },
        OpKind::SetField { key: "sprint".into(), value: "42".into() },
        OpKind::AddFile { path: "src/main.rs".into(), note: "entry point".into() },
        OpKind::SetFileNote { path: "src/main.rs".into(), note: "the binary".into() },
        OpKind::RemoveFile { path: "old.txt".into() },
        OpKind::SetPriority { priority: None },
    ];
    for (i, kind) in kinds.into_iter().enumerate() {
        let written = op(&format!("op{i}"), (i + 7) as u64, "alice", kind);
        let back = read_back(&written);
        // The commit is recorded as the provenance of what was read.
        assert_eq!(back.commit.as_deref(), Some("c0ffee"));
        assert_eq!(back.id, written.id);
        assert_eq!(back.lamport, written.lamport);
        assert_eq!(back.actor, written.actor);
        assert_eq!(back.kind, written.kind, "kind #{i} did not round-trip");
    }
}

#[test]
fn commit_message_has_the_documented_subject_and_trailers() {
    let o = op("0123", 3, "alice", OpKind::SetTitle { title: "Better title".into() });
    let msg = o.to_commit_message();
    assert!(msg.starts_with("Set title: Better title\n\n"), "got {msg:?}");
    assert!(msg.contains("Op: set-title\n"));
    assert!(msg.contains("Op-Id: 0123\n"));
    assert!(msg.contains("Lamport: 3\n"));
    assert!(msg.contains("Actor: alice\n"));
    assert!(msg.contains("Format-Version: 1"));
}

#[test]
fn fold_does_not_depend_on_op_order() {
    let ops = vec![
        create_op("c", 1, "alice", "first"),
        op("t", 4, "alice", OpKind::SetTitle { title: "second".into() }),
        op("l1", 2, "alice", OpKind::AddLabel { label: "bug".into() }),
        op("l2", 3, "bob", OpKind::RemoveLabel { label: "bug".into() }),
        op("l3", 5, "bob", OpKind::AddLabel { label: "ui".into() }),
        op("s", 6, "bob", OpKind::SetState { state: State::Closed, reason: None, fixed_by: None }),
        op("m", 7, "bob", OpKind::Comment { text: "done".into() }),
    ];
    let mut reversed = ops.clone();
    reversed.reverse();
    let mut rotated = ops.clone();
    rotated.rotate_left(3);
    let a = Issue::fold("u", &ops).unwrap();
    let b = Issue::fold("u", &reversed).unwrap();
    let c = Issue::fold("u", &rotated).unwrap();
    for other in [&b, &c] {
        assert_eq!(other.title(), a.title());
        assert_eq!(other.labels(), a.labels());
        assert_eq!(other.state().state, a.state().state);
        assert_eq!(other.comments.len(), a.comments.len());
        assert_eq!(other.max_lamport, a.max_lamport);
    }
    assert_eq!(a.title(), "second");
    assert_eq!(a.labels(), vec!["ui".to_string()]);
    assert_eq!(a.state().state, State::Closed);
}

#[test]
fn lww_writes_commute_and_repeat_harmlessly() {
    let mut x = Lww::unset(String::new());
    x.apply("a".to_string(), 2, "id-a");
    x.apply("b".to_string(), 5, "id-b");
    let mut y = Lww::unset(String::new());
    y.apply("b".to_string(), 5, "id-b");
    y.apply("a".to_string(), 2, "id-a");
    assert_eq!(x.get(), "b");
    assert_eq!(y.get(), "b");
    // Applying the same write again changes nothing.
    y.apply("b".to_string(), 5, "id-b");
    assert_eq!(y.get(), "b");
    assert!(y.is_set());
    // An older write never displaces a newer one.
    y.apply("old".to_string(), 1, "id-z");
    assert_eq!(y.get(), "b");
    assert!(!Lww::unset(0u64).is_set());
}

#[test]
fn orset_add_remove_and_readd() {
    let mut s = OrSet::new();
    s.add("bug", "t1");
    assert!(s.contains("bug"));
    s.add("bug", "t1");
    assert_eq!(s.values(), vec!["bug".to_string()]);
    s.remove("bug");
    assert!(!s.contains("bug"));
    s.add("bug", "t2");
    assert!(s.contains("bug"));
    s.add("api", "t3");
    assert_eq!(s.values(), vec!["api".to_string(), "bug".to_string()]);
}

#[test]
fn actor_slug_is_idempotent_and_lowercase() {
    for raw in ["Alice Smith", "bob@example.com", "  --Weird__Name!!  ", "", "ÅSA"] {
        let once = actor_slug(raw);
        assert_eq!(actor_slug(&once), once, "slug of {raw:?} is not a fixed point");
        assert!(!once.is_empty());
        assert!(once
            .chars()
            .all(|c| c.is_ascii_lowercase() || c.is_ascii_digit() || c == '-'));
        assert!(!once.starts_with('-') && !once.ends_with('-'));
    }
}

#[test]
fn new_uuid_is_32_lowercase_hex_and_fresh() {
    let a = new_uuid();
    let b = new_uuid();
    assert_eq!(a.len(), 32);
    assert!(a.chars().all(|c| c.is_ascii_digit() || ('a'..='f').contains(&c)));
    assert_ne!(a, b);
    // UUIDv7 carries its version nibble at position 12.
    assert_eq!(&a[12..13], "7");
}

fn unique(r: Resolution) -> Option<String> {
    match r {
        Resolution::Unique(u) => Some(u),
        _ => None,
    }
}

fn issue(uuid: &str, actor: &str) -> Issue {
    Issue::fold(uuid, &[create_op(&format!("op-{uuid}"), 1, actor, "t")]).unwrap()
}

#[test]
fn display_nonces_are_distinct_and_each_resolves_to_its_issue() {
    let issues = vec![
        issue("018f0000000000000000000000000001", "alice"),
        issue("018f0000000000000000000000000002", "bob"),
        issue("018f0000000000000000000000000003", "alice"),
        issue("018f1111000000000000000000000004", "carol"),
    ];
    let table = assign_display_ids(&issues);
    assert_eq!(table.len(), 4);
    let mut nonces: Vec<String> = Vec::new();
    for i in &issues {
        let d = table.get(&i.uuid).unwrap();
        assert!(!nonces.contains(&d.nonce), "nonce {} repeats", d.nonce);
        nonces.push(d.nonce.clone());
        assert_eq!(unique(resolve(&d.nonce, &table)), Some(i.uuid.clone()));
    }
    assert_eq!(nonces, vec!["alice-1", "bob-1", "alice-2", "carol-1"]);
}

#[test]
fn resolve_by_number_full_uuid_and_prefix() {
    let issues = vec![
        issue("018f0000000000000000000000000001", "alice"),
        issue("018f0000000000000000000000000002", "bob"),
        issue("018f2222000000000000000000000003", "alice"),
    ];
    let table = assign_display_ids(&issues);
    assert_eq!(
        unique(resolve("018f2222", &table)).as_deref(),
        Some("018f2222000000000000000000000003")
    );
    assert_eq!(
        unique(resolve("018F0000000000000000000000000002", &table)).as_deref(),
        Some("018f0000000000000000000000000002")
    );
    assert!(matches!(resolve("018f", &table), Resolution::Ambiguous(_)));
    assert!(matches!(resolve("zzzz", &table), Resolution::NoMatch));
    // The shown `alice-#1` form and a bare position number.
    assert_eq!(
        unique(resolve("alice-#1", &table)).as_deref(),
        Some("018f0000000000000000000000000001")
    );
    assert_eq!(
        unique(resolve("#2", &table)).as_deref(),
        Some("018f2222000000000000000000000003")
    );
    // Number 1 is shared by alice and bob.
    assert!(matches!(resolve("1", &table), Resolution::Ambiguous(_)));
}

#[test]
fn unknown_trailers_and_any_format_version_are_read() {
    let base = "Set title: X\n\nTitle: X\nOp: set-title\nOp-Id: abc\nLamport: 2\nActor: alice\nFormat-Version: 1\n";
    let future = "Set title: X\n\nTitle: X\nOp: set-title\nOp-Id: abc\nLamport: 2\nActor: alice\nFormat-Version: 999\nX-Reactions: 5\n";
    let a = Op::from_commit_message(base, "c").unwrap();
    let b = Op::from_commit_message(future, "c").unwrap();
    assert_eq!(a.format_version, 1);
    assert_eq!(b.format_version, 999);
    assert_eq!(a.kind, b.kind);
    assert_eq!((a.id, a.lamport, a.actor), (b.id, b.lamport, b.actor));
}

#[test]
fn comment_log_only_grows_and_archive_is_undone_by_restore() {
    let base = vec![
        create_op("c", 1, "alice", "t"),
        op("m1", 2, "alice", OpKind::Comment { text: "one".into() }),
    ];
    let mut more = base.clone();
    more.push(op("m2", 3, "bob", OpKind::Comment { text: "two".into() }));
    more.push(op("a", 4, "bob", OpKind::SetArchived { archived: true }));
    let before = Issue::fold("u", &base).unwrap();
    let after = Issue::fold("u", &more).unwrap();
    assert_eq!(before.comments.len(), 1);
    assert_eq!(after.comments.len(), 2);
    assert_eq!(after.comments[0].text, before.comments[0].text);
    assert_eq!(after.comments[1].text, "two");
    assert!(after.archived());
    more.push(op("r", 5, "alice", OpKind::SetArchived { archived: false }));
    assert!(!Issue::fold("u", &more).unwrap().archived());
}

#[test]
fn a_create_naming_an_assignee_is_a_last_writer_wins_write() {
    let set_a = op("s", 0, "alice", OpKind::SetAssignee { assignee: Some("a".into()) });
    let create = op(
        "c",
        1,
        "alice",
        OpKind::Create {
            title: "t".into(),
            description: String::new(),
            labels: Vec::new(),
            assignee: Some("z".into()),
            priority: None,
        },
    );
    let i = Issue::fold("u", &[set_a.clone(), create.clone()]).unwrap();
    assert_eq!(i.assignee(), Some("z"));
    assert_eq!(i.assignees(), vec!["z".to_string()]);
    let later = op("s2", 2, "bob", OpKind::SetAssignee { assignee: Some("b".into()) });
    let j = Issue::fold("u", &[later, create, set_a]).unwrap();
    assert_eq!(j.assignee(), Some("b"));
}

#[test]
fn every_register_keeps_the_write_with_the_greatest_stamp() {
    let create = op(
        "c",
        1,
        "alice",
        OpKind::Create {
            title: "first".into(),
            description: "d0".into(),
            labels: Vec::new(),
            assignee: None,
            priority: Some("low".into()),
        },
    );
    let title_late = op("t9", 9, "bob", OpKind::SetTitle { title: "last".into() });
    let title_mid = op("t5", 5, "carol", OpKind::SetTitle { title: "middle".into() });
    let clear_prio = op("p7", 7, "bob", OpKind::SetPriority { priority: None });
    let high_prio = op("p3", 3, "carol", OpKind::SetPriority { priority: Some("high".into()) });
    let close = op(
        "s4",
        4,
        "bob",
        OpKind::SetState { state: State::Closed, reason: Some("done".into()), fixed_by: None },
    );
    let archive = op("a2", 2, "bob", OpKind::SetArchived { archived: true });
    let unarchive_same_lamport = op("a2z", 2, "carol", OpKind::SetArchived { archived: false });
    let ops = vec![
        title_late.clone(),
        clear_prio.clone(),
        unarchive_same_lamport.clone(),
        create.clone(),
        close.clone(),
        high_prio.clone(),
        title_mid.clone(),
        archive.clone(),
    ];
    let i = Issue::fold("u", &ops).unwrap();
    assert_eq!(i.title(), "last");
    assert_eq!(i.description(), "d0");
    assert_eq!(i.priority(), None);
    assert_eq!(i.state().state, State::Closed);
    assert_eq!(i.state().reason.as_deref(), Some("done"));
    // Equal lamport: the greater op-id wins.
    assert!(!i.archived());
    let mut reversed = ops.clone();
    reversed.reverse();
    let j = Issue::fold("u", &reversed).unwrap();
    assert_eq!(j.title(), "last");
    assert_eq!(j.priority(), None);
    assert!(!j.archived());
}
