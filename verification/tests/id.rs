use gli::id::{actor_slug, assign_display_ids, resolve, short_prefix, Resolution};
use gli::model::{Issue, Op, OpKind};


fn issue_with(uuid: &str, creator: &str) -> Issue {
    // Fold a minimal Create op so the issue's creator is set correctly.
    let op = Op::new(
        "op".into(),
        1,
        creator.to_string(),
        OpKind::Create {
            title: "t".into(),
            description: String::new(),
            labels: Vec::new(),
            assignee: None,
            priority: None,
        },
    );
    Issue::fold(uuid, &[op]).unwrap()
}

#[test]
fn actor_slug_sanitizes() {
    assert_eq!(actor_slug("Alice"), "alice");
    assert_eq!(actor_slug("Ada Lovelace"), "ada-lovelace");
    assert_eq!(actor_slug("  weird__name!! "), "weird-name");
    assert_eq!(actor_slug("@@@"), "anon");
    assert_eq!(actor_slug(""), "anon");
}

#[test]
fn display_numbers_are_per_actor_and_time_ordered() {
    // Two actors; each numbered independently starting at 1, by uuid order.
    let issues = vec![
        issue_with("018f0000000000000000000000000002", "alice"),
        issue_with("018f0000000000000000000000000001", "alice"),
        issue_with("018f0000000000000000000000000009", "bob"),
    ];
    let d = assign_display_ids(&issues);
    // alice's earlier uuid (...0001) keeps -1; the later (...0002) is -2.
    assert_eq!(d.get("018f0000000000000000000000000001").unwrap().nonce, "alice-1");
    assert_eq!(d.get("018f0000000000000000000000000002").unwrap().nonce, "alice-2");
    assert_eq!(d.get("018f0000000000000000000000000009").unwrap().nonce, "bob-1");
}

#[test]
fn short_prefix_is_first_eight_hex() {
    assert_eq!(short_prefix("0123456789abcdef0123456789abcdef"), "01234567");
    // Shorter-than-eight ids return the whole string.
    assert_eq!(short_prefix("abc"), "abc");
}

#[test]
fn single_actor_shows_bare_numbers() {
    // One actor: handles are bare #N, resolvable by the plain number.
    let issues = vec![
        issue_with("018f0000000000000000000000000010", "alice"),
        issue_with("018f0000000000000000000000000011", "alice"),
    ];
    let d = assign_display_ids(&issues);
    assert_eq!(d.get("018f0000000000000000000000000010").unwrap().handle, "#1");
    assert_eq!(d.get("018f0000000000000000000000000011").unwrap().handle, "#2");
    // Bare number resolves; so does the #-prefixed form.
    assert!(
        matches!(resolve("2", &d), Resolution::Unique(u) if u == "018f0000000000000000000000000011")
    );
    assert!(matches!(resolve("#2", &d), Resolution::Unique(_)));
    // The actor-qualified alias still resolves.
    assert!(matches!(resolve("alice-1", &d), Resolution::Unique(_)));
}

#[test]
fn shared_number_qualifies_with_actor_and_bare_number_is_ambiguous() {
    // Two actors both have a #1: the handle qualifies with the actor, and a
    // bare `1` is ambiguous (lists both).
    let issues = vec![
        issue_with("018f0000000000000000000000000001", "alice"),
        issue_with("018f0000000000000000000000000002", "bob"),
    ];
    let d = assign_display_ids(&issues);
    assert_eq!(d.get("018f0000000000000000000000000001").unwrap().handle, "alice-#1");
    assert_eq!(d.get("018f0000000000000000000000000002").unwrap().handle, "bob-#1");
    match resolve("1", &d) {
        Resolution::Ambiguous(c) => assert_eq!(c.len(), 2),
        _ => panic!("bare number should be ambiguous across actors"),
    }
    // Actor-qualified disambiguates.
    assert!(
        matches!(resolve("bob-1", &d), Resolution::Unique(u) if u == "018f0000000000000000000000000002")
    );
}

#[test]
fn resolve_empty_query_matches_nothing() {
    // The empty string is neither a nonce nor a hex prefix. Without the
    // non-empty guard it would `starts_with("")`-match every uuid, so this
    // pins that guard (a `&&` -> `||` mutation resurfaces as an ambiguity).
    let issues = vec![
        issue_with("018f0000000000000000000000000001", "alice"),
        issue_with("018f0000000000000000000000000002", "bob"),
    ];
    let d = assign_display_ids(&issues);
    assert!(matches!(resolve("", &d), Resolution::NoMatch));
    assert!(matches!(resolve("   ", &d), Resolution::NoMatch));
}

#[test]
fn same_actor_collision_resolves_by_uuid_order() {
    // The scenario the plan calls out: the same actor minted "alice-1" from
    // two offline clones. The earlier UUIDv7 keeps the number; the later
    // deterministically drifts to the next slot.
    let earlier = "018f0000000000000000000000000010";
    let later = "018f0000000000000000000000000011";
    let issues = vec![issue_with(later, "alice"), issue_with(earlier, "alice")];
    let d = assign_display_ids(&issues);
    assert_eq!(d.get(earlier).unwrap().nonce, "alice-1");
    assert_eq!(d.get(later).unwrap().nonce, "alice-2");
}

#[test]
fn resolve_matches_nonce_prefix_and_reports_ambiguity() {
    let issues = vec![
        issue_with("018f0000000000000000000000000001", "alice"),
        issue_with("018fabcdef00000000000000000000aa", "bob"),
        issue_with("018fabcdef00000000000000000000bb", "bob"),
    ];
    let d = assign_display_ids(&issues);

    // Actor-nonce.
    assert!(
        matches!(resolve("alice-1", &d), Resolution::Unique(u) if u == "018f0000000000000000000000000001")
    );
    // Nonce resolution is case-insensitive.
    assert!(matches!(resolve("ALICE-1", &d), Resolution::Unique(_)));
    // Unambiguous uuid prefix.
    assert!(matches!(resolve("018f00000", &d), Resolution::Unique(_)));
    // Ambiguous prefix -> both bob issues.
    match resolve("018fabcdef", &d) {
        Resolution::Ambiguous(c) => assert_eq!(c.len(), 2),
        other => panic!(
            "expected ambiguous, got {:?}",
            matches!(other, Resolution::NoMatch)
        ),
    }
    // No match.
    assert!(matches!(resolve("ffffffff", &d), Resolution::NoMatch));
    assert!(matches!(resolve("nobody-3", &d), Resolution::NoMatch));
}
