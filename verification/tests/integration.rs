//! End-to-end tests of the local path (op commits under `refs/issues/*`,
//! reading chains back, folding, display numbering, id resolution, fsck)
//! against an in-memory git that keeps commit objects and refs the way git
//! does: commits carry a parent, a message and an author; refs move by
//! compare-and-swap.

use gli::cache::Cache;
use gli::error::GliError;
use gli::git::{Author, GitBackend, RawCommit, RefEntry};
use gli::model::{OpKind, State};
use gli::store::Store;
use std::cell::{Cell, RefCell};
use std::collections::HashMap;
use std::path::PathBuf;

struct Object {
    parent: Option<String>,
    message: String,
    author: Author,
    time: i64,
}

/// An in-memory repository.
struct Repo {
    cfg: RefCell<HashMap<String, String>>,
    objects: RefCell<HashMap<String, Object>>,
    refs: RefCell<Vec<(String, String)>>,
    next: Cell<u64>,
}

fn new_repo(name: &str, email: &str) -> Repo {
    let repo = Repo {
        cfg: RefCell::new(HashMap::new()),
        objects: RefCell::new(HashMap::new()),
        refs: RefCell::new(Vec::new()),
        next: Cell::new(1),
    };
    repo.set_identity(name, email);
    repo
}

impl Repo {
    fn set_identity(&self, name: &str, email: &str) {
        let mut cfg = self.cfg.borrow_mut();
        cfg.insert("user.name".into(), name.into());
        cfg.insert("user.email".into(), email.into());
    }

    fn current(&self, refname: &str) -> Option<String> {
        self.refs
            .borrow()
            .iter()
            .find(|(r, _)| r == refname)
            .map(|(_, t)| t.clone())
    }

    /// Writes a commit by hand (as `git commit-tree` would) and points a ref
    /// at it.
    fn hand_commit(&self, parent: Option<&str>, message: &str) -> String {
        let author = Author {
            name: "Alice".into(),
            email: "alice@example.com".into(),
        };
        self.commit_op(parent, message, &author).unwrap()
    }

    fn set_ref(&self, refname: &str, tip: &str) {
        self.update_ref(refname, tip, None).unwrap();
    }
}

impl GitBackend for Repo {
    fn repo_root(&self) -> Result<PathBuf, GliError> {
        Ok(PathBuf::from("/repo"))
    }

    fn config(&self, key: &str) -> Option<String> {
        self.cfg
            .borrow()
            .get(key)
            .map(|v| v.trim().to_string())
            .filter(|v| !v.is_empty())
    }

    fn list_issue_refs(&self) -> Result<Vec<RefEntry>, GliError> {
        let mut refs = self.refs.borrow().clone();
        refs.sort();
        Ok(refs
            .into_iter()
            .filter_map(|(r, tip)| {
                r.strip_prefix("refs/issues/").map(|u| RefEntry {
                    uuid: u.to_string(),
                    tip,
                })
            })
            .collect())
    }

    fn read_chain(&self, tip: &str) -> Result<Vec<RawCommit>, GliError> {
        let objects = self.objects.borrow();
        let mut chain = Vec::new();
        let mut at = Some(tip.to_string());
        while let Some(sha) = at {
            let o = objects
                .get(&sha)
                .ok_or_else(|| GliError::Git(format!("bad object {sha}")))?;
            chain.push(RawCommit {
                sha: sha.clone(),
                parents: o.parent.iter().cloned().collect(),
                author_name: o.author.name.clone(),
                author_email: o.author.email.clone(),
                author_time: o.time,
                message: o.message.clone(),
            });
            at = o.parent.clone();
        }
        chain.reverse();
        Ok(chain)
    }

    fn commit_op(&self, parent: Option<&str>, message: &str, author: &Author) -> Result<String, GliError> {
        let n = self.next.get();
        self.next.set(n + 1);
        let sha = format!("{:040x}", n * 0x9e37_79b9 + 0xabc);
        self.objects.borrow_mut().insert(
            sha.clone(),
            Object {
                parent: parent.map(|p| p.to_string()),
                message: message.to_string(),
                author: author.clone(),
                time: 1_700_000_000 + n as i64,
            },
        );
        Ok(sha)
    }

    fn update_ref(&self, refname: &str, new: &str, old: Option<&str>) -> Result<(), GliError> {
        if let Some(o) = old {
            if self.current(refname).as_deref() != Some(o) {
                return Err(GliError::Git(format!("cannot lock ref '{refname}'")));
            }
        }
        let mut refs = self.refs.borrow_mut();
        match refs.iter_mut().find(|(r, _)| r == refname) {
            Some(entry) => entry.1 = new.to_string(),
            None => refs.push((refname.to_string(), new.to_string())),
        }
        Ok(())
    }

    fn delete_ref(&self, refname: &str) -> Result<(), GliError> {
        self.refs.borrow_mut().retain(|(r, _)| r != refname);
        Ok(())
    }
}

#[test]
fn create_then_read_back_state() {
    let repo = new_repo("Alice", "alice@example.com");
    let store = Store::new(&repo);
    let uuid = store
        .create(
            "First bug",
            "It is broken.",
            vec!["bug".into(), "urgent".into()],
            Some("bob".into()),
            Some("high".into()),
        )
        .unwrap();

    let cache = Cache::build(&repo).unwrap();
    let issue = cache.issue(&uuid).expect("issue exists");
    assert_eq!(issue.title(), "First bug");
    assert_eq!(issue.description(), "It is broken.");
    assert_eq!(issue.assignee(), Some("bob"));
    assert_eq!(issue.priority(), Some("high"));
    assert_eq!(issue.labels(), vec!["bug".to_string(), "urgent".to_string()]);
    assert_eq!(issue.state().state, State::Open);
    assert_eq!(issue.creator, "alice");

    // Display number is the actor's first issue.
    assert_eq!(cache.display_of(&uuid).nonce, "alice-1");
}

#[test]
fn comments_survive_reload_with_stable_identity() {
    let repo = new_repo("Alice", "alice@example.com");
    let store = Store::new(&repo);
    let uuid = store.create("Bug", "", vec![], None, None).unwrap();
    store
        .append(&uuid, OpKind::Comment { text: "first".into() })
        .unwrap();
    store
        .append(&uuid, OpKind::Comment { text: "second".into() })
        .unwrap();

    // Read twice; the comment op-ids must be identical across reads (stable).
    let a = Cache::build(&repo).unwrap();
    let b = Cache::build(&repo).unwrap();
    let ca = &a.issue(&uuid).unwrap().comments;
    let cb = &b.issue(&uuid).unwrap().comments;
    assert_eq!(ca.len(), 2);
    let ids_a: Vec<&str> = ca.iter().map(|c| c.id.as_str()).collect();
    let ids_b: Vec<&str> = cb.iter().map(|c| c.id.as_str()).collect();
    assert_eq!(ids_a, ids_b);
    assert_eq!(
        ca.iter().map(|c| c.text.as_str()).collect::<Vec<_>>(),
        vec!["first", "second"]
    );
}

#[test]
fn edit_title_description_and_labels() {
    let repo = new_repo("Alice", "alice@example.com");
    let store = Store::new(&repo);
    let uuid = store
        .create("Old", "old body", vec!["keep".into(), "drop".into()], None, None)
        .unwrap();

    store
        .append(&uuid, OpKind::SetTitle { title: "New".into() })
        .unwrap();
    store
        .append(
            &uuid,
            OpKind::SetDescription {
                description: "new body".into(),
            },
        )
        .unwrap();
    store
        .append(&uuid, OpKind::AddLabel { label: "added".into() })
        .unwrap();
    store
        .append(&uuid, OpKind::RemoveLabel { label: "drop".into() })
        .unwrap();

    let cache = Cache::build(&repo).unwrap();
    let issue = cache.issue(&uuid).unwrap();
    assert_eq!(issue.title(), "New");
    assert_eq!(issue.description(), "new body");
    assert_eq!(issue.labels(), vec!["added".to_string(), "keep".to_string()]);
}

#[test]
fn comment_with_control_bytes_does_not_break_the_tracker() {
    let repo = new_repo("Alice", "alice@example.com");
    let store = Store::new(&repo);
    let a = store.create("First", "", vec![], None, None).unwrap();
    let b = store.create("Second", "", vec![], None, None).unwrap();

    let nasty = "see record\u{1e}separator and unit\u{1f}sep and bell\u{7}";
    store
        .append(&a, OpKind::Comment { text: nasty.into() })
        .unwrap();

    // Every issue must still read, and the nasty comment must be intact.
    let cache = Cache::build(&repo).unwrap();
    assert_eq!(cache.issues.len(), 2);
    assert_eq!(cache.issue(&b).unwrap().title(), "Second");
    let comments = &cache.issue(&a).unwrap().comments;
    assert_eq!(comments.len(), 1);
    assert_eq!(comments[0].text, nasty);
}

#[test]
fn body_text_round_trips_exactly() {
    let repo = new_repo("Alice", "alice@example.com");
    let store = Store::new(&repo);
    let body = "  indented first line\n\n\nthree newlines above\n\ttrailing tab kept\t";
    let uuid = store.create("Fidelity", body, vec![], None, None).unwrap();
    let cache = Cache::build(&repo).unwrap();
    assert_eq!(cache.issue(&uuid).unwrap().description(), body);
}

#[test]
fn oversized_fields_are_rejected() {
    let repo = new_repo("Alice", "alice@example.com");
    let store = Store::new(&repo);
    let huge = "x".repeat(gli::store::MAX_FIELD_BYTES + 1);

    // On create (description).
    assert!(store.create("t", &huge, vec![], None, None).is_err());
    // On a comment append.
    let uuid = store.create("t", "", vec![], None, None).unwrap();
    assert!(store.append(&uuid, OpKind::Comment { text: huge }).is_err());
    // A field exactly at the limit is accepted.
    let at_limit = "y".repeat(gli::store::MAX_FIELD_BYTES);
    assert!(store.create("t", &at_limit, vec![], None, None).is_ok());
}

#[test]
fn labels_with_commas_are_rejected() {
    let repo = new_repo("Alice", "alice@example.com");
    let store = Store::new(&repo);
    // On create.
    assert!(store.create("t", "", vec!["a,b".into()], None, None).is_err());
    // On add-label.
    let uuid = store.create("t", "", vec![], None, None).unwrap();
    assert!(
        store
            .append(&uuid, OpKind::AddLabel { label: "x,y".into() })
            .is_err()
    );
}

#[test]
fn state_transitions_are_lww() {
    let repo = new_repo("Alice", "alice@example.com");
    let store = Store::new(&repo);
    let uuid = store.create("Bug", "", vec![], None, None).unwrap();

    store
        .append(
            &uuid,
            OpKind::SetState {
                state: State::Closed,
                reason: Some("fixed".into()),
                fixed_by: Some("cafebabe".into()),
            },
        )
        .unwrap();

    let cache = Cache::build(&repo).unwrap();
    let st = cache.issue(&uuid).unwrap().state().clone();
    assert_eq!(st.state, State::Closed);
    assert_eq!(st.reason.as_deref(), Some("fixed"));
    assert_eq!(st.fixed_by.as_deref(), Some("cafebabe"));
}

#[test]
fn description_with_tricky_content_round_trips_through_git() {
    let repo = new_repo("Alice", "alice@example.com");
    let store = Store::new(&repo);
    let tricky =
        "Repro steps:\n\n1. do a thing\n\nNote: this line looks like a trailer\nOp: not-an-op";
    let uuid = store.create("Edge", tricky, vec![], None, None).unwrap();

    let cache = Cache::build(&repo).unwrap();
    assert_eq!(cache.issue(&uuid).unwrap().description(), tricky);
}

#[test]
fn lamport_clock_advances_along_the_chain() {
    let repo = new_repo("Alice", "alice@example.com");
    let store = Store::new(&repo);
    let uuid = store.create("Bug", "", vec![], None, None).unwrap();
    store
        .append(&uuid, OpKind::Comment { text: "a".into() })
        .unwrap();
    store
        .append(&uuid, OpKind::Comment { text: "b".into() })
        .unwrap();

    let cache = Cache::build(&repo).unwrap();
    let ops = &cache.ops.iter().find(|(u, _)| u == &uuid).unwrap().1;
    let lamports: Vec<u64> = ops.iter().map(|o| o.lamport).collect();
    assert_eq!(lamports, vec![1, 2, 3]);
    assert_eq!(cache.issue(&uuid).unwrap().max_lamport, 3);
}

#[test]
fn cross_actor_display_numbers_do_not_clash() {
    // Two actors in the same repo both get a "-1"; they never collide because
    // display numbers are actor-scoped.
    let repo = new_repo("Alice", "alice@example.com");
    let alice = Store::new(&repo);
    let a = alice.create("Alice bug", "", vec![], None, None).unwrap();

    // Switch identity, then create as bob in the same repo.
    repo.set_identity("Bob", "bob@example.com");
    let bob = Store::new(&repo);
    let b = bob.create("Bob bug", "", vec![], None, None).unwrap();

    let cache = Cache::build(&repo).unwrap();
    assert_eq!(cache.display_of(&a).nonce, "alice-1");
    assert_eq!(cache.display_of(&b).nonce, "bob-1");
}

#[test]
fn forward_compat_unknown_trailers_and_higher_version_are_read() {
    // A commit written by a hypothetical newer gli: unknown trailers and a
    // higher Format-Version must still parse and fold, never be rejected.
    let repo = new_repo("Alice", "alice@example.com");

    let msg = "Create: Future issue\n\nfrom the future\n\n\
               Title: Future issue\n\
               Op: create\n\
               Op-Id: 00000000000000000000000000000001\n\
               Lamport: 1\n\
               Actor: alice\n\
               Format-Version: 999\n\
               X-Reactions: 5\n\
               Unknown-Trailer: ignore me\n";

    let commit = repo.hand_commit(None, msg);
    repo.set_ref("refs/issues/00000000000000000000000000000abc", &commit);

    let cache = Cache::build(&repo).unwrap();
    let issue = cache
        .issue("00000000000000000000000000000abc")
        .expect("future issue is readable");
    assert_eq!(issue.title(), "Future issue");
    assert_eq!(issue.description(), "from the future");
}

#[test]
fn ambiguous_prefix_lists_distinguishable_candidates() {
    // Two issues sharing an 8-char short prefix must still be told apart in the
    // error: the candidate list carries the actor-nonce plus a longer prefix.
    let repo = new_repo("Alice", "alice@example.com");
    for (i, uuid) in [
        "018fabcd0000000000000000000000a1",
        "018fabcd0000000000000000000000b2",
    ]
    .iter()
    .enumerate()
    {
        let msg = format!(
            "Create: I{i}\n\nTitle: I{i}\nOp: create\nOp-Id: {uuid}\nLamport: 1\nActor: alice\nFormat-Version: 1\n"
        );
        let commit = repo.hand_commit(None, &msg);
        repo.set_ref(&format!("refs/issues/{uuid}"), &commit);
    }

    let cache = Cache::build(&repo).unwrap();
    let err = cache.resolve("018fabcd").unwrap_err().message();
    assert!(err.contains("ambiguous"), "got: {err}");
    // Both actor-nonces appear so the user can pick.
    assert!(err.contains("alice-1"), "got: {err}");
    assert!(err.contains("alice-2"), "got: {err}");
}

#[test]
fn fsck_passes_on_healthy_issues() {
    let repo = new_repo("Alice", "alice@example.com");
    let store = Store::new(&repo);
    let uuid = store
        .create("Bug", "body", vec!["l".into()], None, None)
        .unwrap();
    store
        .append(&uuid, OpKind::Comment { text: "c".into() })
        .unwrap();

    let report = gli::fsck::check(&repo).unwrap();
    assert_eq!(report.issue_count, 1);
    assert!(report.problems.is_empty(), "problems: {:?}", report.problems);
}

#[test]
fn fsck_flags_a_chain_with_no_create() {
    // A ref pointing at a lone non-Create op is corrupt: no root Create.
    let repo = new_repo("Alice", "alice@example.com");
    let msg = "Comment\n\nhi\n\nOp: comment\nOp-Id: 00000000000000000000000000000001\nLamport: 1\nActor: alice\nFormat-Version: 1\n";
    let commit = repo.hand_commit(None, msg);
    repo.set_ref("refs/issues/00000000000000000000000000000fff", &commit);

    let report = gli::fsck::check(&repo).unwrap();
    assert!(
        report.problems.iter().any(|p| p.contains("no Create")),
        "expected a 'no Create' problem, got {:?}",
        report.problems
    );
}

#[test]
fn fsck_flags_duplicate_op_ids() {
    // Two ops sharing an Op-Id violates stable-identity; fsck must catch it.
    let repo = new_repo("Alice", "alice@example.com");
    let create_msg = "Create: X\n\nTitle: X\nOp: create\nOp-Id: 00000000000000000000000000000abc\nLamport: 1\nActor: alice\nFormat-Version: 1\n";
    let root = repo.hand_commit(None, create_msg);
    // Second op deliberately reuses the same Op-Id.
    let dup_msg = "Comment\n\nhi\n\nOp: comment\nOp-Id: 00000000000000000000000000000abc\nLamport: 2\nActor: alice\nFormat-Version: 1\n";
    let child = repo.hand_commit(Some(&root), dup_msg);
    repo.set_ref("refs/issues/00000000000000000000000000000abc", &child);

    let report = gli::fsck::check(&repo).unwrap();
    assert!(
        report.problems.iter().any(|p| p.contains("duplicate op-id")),
        "expected a duplicate op-id problem, got {:?}",
        report.problems
    );
}

#[test]
fn purge_deletes_the_ref_and_the_issue_is_gone() {
    let repo = new_repo("Alice", "alice@example.com");
    let store = Store::new(&repo);
    let uuid = store.create("Doomed", "", vec![], None, None).unwrap();
    repo.delete_ref(&gli::store::refname(&uuid)).unwrap();
    let cache = Cache::build(&repo).unwrap();
    assert!(cache.issue(&uuid).is_none());
    assert!(matches!(
        cache.resolve(&uuid),
        Err(GliError::UnknownIssue(_))
    ));
}

// --- What the commands decide and print, over a real chain. ---

use gli::cli::{
    apply_edit, check_config_key, config_keys, create_fields, edit_steps, edit_summary, editor_text,
    field_list_lines, field_value, file_list_lines,
    fsck_verdict, issue_listed, issue_matches_search, list_rows, ls_format, ls_lines, op_log_lines,
    show_lines, state_arg, status_lines, EditChanges, ListFilter,
};

fn no_filter() -> ListFilter {
    ListFilter {
        state: None,
        labels: Vec::new(),
        assignee: None,
        priority: None,
        creator: None,
        search: None,
        archived: false,
        all: false,
    }
}

#[test]
fn create_defaults_fill_only_absent_flags() {
    let (labels, assignee, priority) = create_fields(
        Vec::new(),
        Some(String::new()),
        Some("high".into()),
        Some(" bug , ,ui ".into()),
        Some("carol".into()),
        Some("low".into()),
    );
    assert_eq!(labels, vec!["bug".to_string(), "ui".to_string()]);
    assert_eq!(assignee.as_deref(), Some("carol"));
    assert_eq!(priority.as_deref(), Some("high"));
    let (labels, assignee, priority) =
        create_fields(vec!["x".into()], None, None, Some("bug".into()), None, None);
    assert_eq!(labels, vec!["x".to_string()]);
    assert_eq!(assignee, None);
    assert_eq!(priority, None);
}

#[test]
fn state_argument_is_read_or_refused() {
    assert_eq!(state_arg(" Closed ").unwrap(), State::Closed);
    assert_eq!(state_arg("open").unwrap(), State::Open);
    assert_eq!(state_arg("done").unwrap_err(), "invalid state 'done' (open|closed)");
}

#[test]
fn config_keys_and_format_precedence() {
    assert!(check_config_key("format").is_ok());
    assert_eq!(
        check_config_key("colour").unwrap_err(),
        "unknown config key 'colour' (known: priority, assignee, labels, format)"
    );
    assert_eq!(config_keys(), vec!["priority", "assignee", "labels", "format"]);
    assert_eq!(ls_format(Some("json".into()), Some("full".into())), "json");
    assert_eq!(ls_format(None, Some("full".into())), "full");
    assert_eq!(ls_format(None, None), "short");
}

#[test]
fn editor_text_drops_comment_lines_and_trims() {
    let raw = "\nFirst line\n  # a note to self\nsecond\n# Write your comment above.\n\n";
    assert_eq!(editor_text(raw), "First line\nsecond");
    assert_eq!(editor_text("# only a template\n"), "");
}

#[test]
fn search_is_case_insensitive_over_text_labels_and_comments() {
    let repo = new_repo("Alice", "alice@example.com");
    let store = Store::new(&repo);
    let uuid = store
        .create("Login Button", "does NOTHING", vec!["Frontend".into()], None, None)
        .unwrap();
    store
        .append(&uuid, OpKind::Comment { text: "Seen on Firefox".into() })
        .unwrap();
    let cache = Cache::build(&repo).unwrap();
    let issue = cache.issue(&uuid).unwrap();
    for term in ["login", "nothing", "frontend", "firefox"] {
        assert!(issue_matches_search(issue, term), "{term}");
    }
    assert!(!issue_matches_search(issue, "safari"));
    // A listing's search term may come in any case.
    for term in ["LOGIN button", "Nothing", "FRONTEND", "fireFOX"] {
        let mut f = no_filter();
        f.search = Some(term.into());
        assert!(issue_listed(issue, &f), "{term}");
    }
    let mut f = no_filter();
    f.search = Some("SAFARI".into());
    assert!(!issue_listed(issue, &f));
}

#[test]
fn listing_filters_sorts_and_prints_rows() {
    let repo = new_repo("Alice", "alice@example.com");
    let store = Store::new(&repo);
    let a = store
        .create("beta", "", vec!["bug".into()], Some("bob".into()), Some("high".into()))
        .unwrap();
    let b = store.create("Alpha", "", vec![], None, None).unwrap();
    let c = store.create("gamma", "", vec!["bug".into()], None, None).unwrap();
    store
        .append(&c, OpKind::SetArchived { archived: true })
        .unwrap();
    let cache = Cache::build(&repo).unwrap();
    let uuid_at = |rows: &Vec<usize>| -> Vec<String> {
        rows.iter().map(|&i| cache.issues[i].uuid.clone()).collect()
    };

    // Newest first by default; the archived issue is hidden.
    let rows = list_rows(&cache.issues, &no_filter(), "newest");
    assert_eq!(uuid_at(&rows), vec![b.clone(), a.clone()]);
    let rows = list_rows(&cache.issues, &no_filter(), "oldest");
    assert_eq!(uuid_at(&rows), vec![a.clone(), b.clone()]);
    let rows = list_rows(&cache.issues, &no_filter(), "title");
    assert_eq!(uuid_at(&rows), vec![b.clone(), a.clone()]);

    let mut f = no_filter();
    f.all = true;
    f.labels = vec!["bug".into()];
    assert_eq!(uuid_at(&list_rows(&cache.issues, &f, "oldest")), vec![a.clone(), c.clone()]);
    let mut f = no_filter();
    f.archived = true;
    assert_eq!(uuid_at(&list_rows(&cache.issues, &f, "oldest")), vec![c.clone()]);
    let mut f = no_filter();
    f.assignee = Some("bob".into());
    f.priority = Some("high".into());
    assert_eq!(uuid_at(&list_rows(&cache.issues, &f, "oldest")), vec![a.clone()]);

    let rows = list_rows(&cache.issues, &no_filter(), "oldest");
    let lines = ls_lines(&cache, &rows, false);
    let da = cache.display_of(&a);
    assert_eq!(
        lines[0],
        format!("{:<12} {:<8} {:<7} {}{}", da.nonce, da.short, "open", "beta", "  [bug]")
    );
    let full = ls_lines(&cache, &rows, true);
    assert_eq!(full[0], format!("{} ({})  [open]  beta", da.nonce, da.short));
    assert!(full.contains(&"    assignees: bob".to_string()));
    assert!(full.contains(&"    priority: high".to_string()));
    assert!(full.contains(&"    comments: 0".to_string()));

    let mut f = no_filter();
    f.creator = Some("nobody".into());
    let none = list_rows(&cache.issues, &f, "newest");
    assert_eq!(ls_lines(&cache, &none, false), vec!["No matching issues."]);
}

#[test]
fn show_prints_the_issue_and_its_operation_log() {
    let repo = new_repo("Alice", "alice@example.com");
    let store = Store::new(&repo);
    let uuid = store
        .create("Crash", "Steps:\n1. open", vec!["bug".into()], None, Some("high".into()))
        .unwrap();
    store
        .append(&uuid, OpKind::Comment { text: "me too\nand again".into() })
        .unwrap();
    store
        .append(
            &uuid,
            OpKind::SetState { state: State::Closed, reason: Some("fixed".into()), fixed_by: None },
        )
        .unwrap();
    let cache = Cache::build(&repo).unwrap();
    let issue = cache.issue(&uuid).unwrap();
    let lines = show_lines(&cache, issue);
    assert_eq!(lines[0], format!("alice-1  ({uuid})"));
    assert_eq!(lines[1], "Title:    Crash");
    assert_eq!(lines[2], "State:    closed (reason: fixed)");
    assert!(lines.contains(&"Priority: high".to_string()));
    assert!(lines.contains(&"Labels:   bug".to_string()));
    assert!(lines.contains(&"Creator:  alice".to_string()));
    assert!(lines.contains(&"\nComments (1):".to_string()));
    assert!(lines.contains(&"  #1 by Alice <alice@example.com>:".to_string()));
    assert!(lines.contains(&"    and again".to_string()));

    let ops = &cache.ops.iter().find(|(u, _)| u == &uuid).unwrap().1;
    let log = op_log_lines("alice-1", &uuid, ops);
    assert_eq!(log[0], format!("alice-1  ({uuid})  operation log (3 ops):"));
    assert_eq!(log.len(), 4);
    assert!(log[1].starts_with("  [lamport    1] create          op-id "));
    assert!(log[3].starts_with("  [lamport    3] set-state       op-id "));
}

#[test]
fn edit_becomes_one_operation_per_change_in_order() {
    let c = EditChanges {
        title: Some("New title\nsecond line".into()),
        desc: None,
        add_label: vec!["ui".into()],
        remove_label: vec!["bug".into()],
        assignee: Some(String::new()),
        add_assignee: vec!["dana".into()],
        remove_assignee: Vec::new(),
        priority: Some("low".into()),
    };
    let steps = edit_steps(&c);
    let reports: Vec<&str> = steps.iter().map(|s| s.report.as_str()).collect();
    assert_eq!(
        reports,
        vec![
            "  set title: New title",
            "  add label: ui",
            "  remove label: bug",
            "  clear assignees",
            "  add assignee: dana",
            "  set priority: low",
        ]
    );
    assert_eq!(steps[3].kind, OpKind::SetAssignee { assignee: None });
    assert_eq!(edit_summary(6, "alice-1"), "Applied 6 change(s) to alice-1");
    assert!(edit_summary(0, "alice-1").starts_with("Nothing to change."));
}

#[test]
fn status_counts_and_sync_state() {
    let repo = new_repo("Alice", "alice@example.com");
    let store = Store::new(&repo);
    let a = store.create("one", "", vec![], None, None).unwrap();
    store.create("two", "", vec![], None, None).unwrap();
    store
        .append(&a, OpKind::SetState { state: State::Closed, reason: None, fixed_by: None })
        .unwrap();
    let cache = Cache::build(&repo).unwrap();
    let lines = status_lines(&cache, &Vec::new());
    assert_eq!(lines[0], "Issues: 2 (1 open, 1 closed)");
    assert_eq!(
        lines[1],
        "Display numbers: drift-allowed, recomputed each run. Actors with multiple issues:"
    );
    assert_eq!(lines[2], "  alice: 2 issues (numbered by UUIDv7 order)");
    assert_eq!(lines[3], "Sync: no remote issue refs found. All 2 issue(s) are local-only.");

    // One issue's tip is known to a remote: the other is unpushed.
    let tip_a = cache.tips.iter().find(|(u, _)| u == &a).unwrap().1.clone();
    let lines = status_lines(&cache, &vec![tip_a]);
    assert_eq!(lines[3], "Sync: 1 issue(s) have local commits not on any remote:");
    assert!(lines[4].ends_with("  two"), "got {:?}", lines[4]);
}

#[test]
fn fsck_verdict_lines_and_exit_code() {
    assert_eq!(fsck_verdict(3, &Vec::new()), (vec!["fsck: 3 issue(s) OK.".to_string()], 0));
    let (lines, code) = fsck_verdict(3, &vec!["x: no Create".to_string()]);
    assert_eq!(code, 1);
    assert_eq!(lines, vec!["fsck: x: no Create", "fsck: 1 problem(s) found."]);
}

#[test]
fn cache_from_read_chains_matches_build_and_reports_the_first_failure() {
    let repo = new_repo("Alice", "alice@example.com");
    let store = Store::new(&repo);
    let a = store.create("A", "", vec![], None, None).unwrap();
    let b = store.create("B", "", vec!["x".into()], None, None).unwrap();
    let entries = repo.list_issue_refs().unwrap();
    let chains: Vec<Vec<RawCommit>> = entries
        .iter()
        .map(|e| repo.read_chain(&e.tip).unwrap())
        .collect();
    let built = Cache::build(&repo).unwrap();
    let from = Cache::from_chains(&entries, &chains).unwrap();
    let uuids = |c: &Cache| c.issues.iter().map(|i| i.uuid.clone()).collect::<Vec<_>>();
    assert_eq!(uuids(&from), uuids(&built));
    assert_eq!(from.issue(&b).unwrap().labels(), vec!["x".to_string()]);
    assert_eq!(from.display_of(&a).nonce, built.display_of(&a).nonce);
    assert_eq!(from.tips, built.tips);

    // A chain whose only op is a comment does not fold.
    let orphan = repo.hand_commit(
        None,
        "Comment\n\nhi\n\nOp: comment\nOp-Id: 00000000000000000000000000000009\nLamport: 1\nActor: alice\nFormat-Version: 1\n",
    );
    let mut entries2 = entries.clone();
    entries2.push(RefEntry { uuid: "ffff".into(), tip: orphan.clone() });
    let mut chains2 = chains.clone();
    chains2.push(repo.read_chain(&orphan).unwrap());
    match Cache::from_chains(&entries2, &chains2) {
        Err(e) => assert_eq!(
            e.message(),
            "malformed operation in commit ffff: issue has no Create operation"
        ),
        Ok(_) => panic!("expected a fold failure"),
    }
}

#[test]
fn check_chains_counts_every_ref_and_offers_unusable_ones() {
    let repo = new_repo("Alice", "alice@example.com");
    let store = Store::new(&repo);
    store.create("Fine", "", vec![], None, None).unwrap();
    let entries = vec![
        repo.list_issue_refs().unwrap()[0].clone(),
        RefEntry { uuid: "0123456789abcdef".into(), tip: "gone".into() },
    ];
    let chains = vec![repo.read_chain(&entries[0].tip).unwrap(), Vec::new()];
    let report = gli::fsck::check_chains(&entries, &chains);
    assert_eq!(report.issue_count, 2);
    assert_eq!(report.problems, vec!["01234567: ref points at an empty chain".to_string()]);
    assert_eq!(report.repairable.len(), 1);
    assert_eq!(report.repairable[0].uuid, "0123456789abcdef");
    assert_eq!(report.repairable[0].tip, "gone");
    assert_eq!(report.repairable[0].reason, "empty chain");
}

#[test]
fn field_and_file_reports() {
    let repo = new_repo("Alice", "alice@example.com");
    let store = Store::new(&repo);
    let uuid = store.create("Meta", "", vec![], None, None).unwrap();
    let cache = Cache::build(&repo).unwrap();
    let bare = cache.issue(&uuid).unwrap();
    assert_eq!(field_list_lines(bare), vec!["No fields set."]);
    assert_eq!(file_list_lines(bare), vec!["No related files."]);
    assert_eq!(field_value(bare, "sprint"), None);

    store
        .append(&uuid, OpKind::SetField { key: "sprint".into(), value: "7".into() })
        .unwrap();
    store
        .append(&uuid, OpKind::SetField { key: "area".into(), value: "ui".into() })
        .unwrap();
    store
        .append(&uuid, OpKind::SetField { key: "area".into(), value: String::new() })
        .unwrap();
    store
        .append(&uuid, OpKind::AddFile { path: "src/b.rs".into(), note: "here".into() })
        .unwrap();
    store
        .append(&uuid, OpKind::AddFile { path: "src/a.rs".into(), note: String::new() })
        .unwrap();
    let cache = Cache::build(&repo).unwrap();
    let issue = cache.issue(&uuid).unwrap();
    assert_eq!(field_value(issue, "sprint").as_deref(), Some("7"));
    assert_eq!(field_value(issue, "area"), None);
    assert_eq!(field_list_lines(issue), vec!["sprint = 7"]);
    assert_eq!(file_list_lines(issue), vec!["src/a.rs", "src/b.rs  (here)"]);
}

#[test]
fn quarantine_of_nothing_succeeds_and_moves_unusable_refs() {
    let repo = new_repo("Alice", "alice@example.com");
    assert!(gli::fsck::quarantine(&repo, &[]).unwrap().is_empty());
    let orphan = repo.hand_commit(
        None,
        "Comment\n\nhi\n\nOp: comment\nOp-Id: 00000000000000000000000000000001\nLamport: 1\nActor: alice\nFormat-Version: 1\n",
    );
    repo.set_ref("refs/issues/0123456789abcdef0123456789abcdef", &orphan);
    let report = gli::fsck::check(&repo).unwrap();
    let actions = gli::fsck::quarantine(&repo, &report.repairable).unwrap();
    assert_eq!(actions.len(), 1);
    assert!(repo.list_issue_refs().unwrap().is_empty());
    assert_eq!(
        repo.current("refs/gli-quarantine/0123456789abcdef0123456789abcdef"),
        Some(orphan)
    );
}

#[test]
fn edit_applies_in_order_and_stops_at_the_first_refusal() {
    let repo = new_repo("Alice", "alice@example.com");
    let store = Store::new(&repo);
    let uuid = store.create("Old", "", vec![], None, None).unwrap();
    let c = EditChanges {
        title: Some("New".into()),
        desc: None,
        add_label: vec!["ok".into(), "bad,label".into(), "never".into()],
        remove_label: Vec::new(),
        assignee: None,
        add_assignee: Vec::new(),
        remove_assignee: Vec::new(),
        priority: None,
    };
    let (applied, failure, _) = apply_edit(&store, &uuid, edit_steps(&c));
    assert_eq!(applied, vec!["  set title: New", "  add label: ok"]);
    assert!(matches!(failure, Some(GliError::InvalidLabel { .. })));
    let cache = Cache::build(&repo).unwrap();
    let issue = cache.issue(&uuid).unwrap();
    assert_eq!(issue.title(), "New");
    assert_eq!(issue.labels(), vec!["ok".to_string()]);
    let (all, none, _) = apply_edit(&store, &uuid, Vec::new());
    assert!(all.is_empty() && none.is_none());
}

fn edit_of_priority(p: &str) -> EditChanges {
    EditChanges {
        title: None,
        desc: None,
        add_label: Vec::new(),
        remove_label: Vec::new(),
        assignee: None,
        add_assignee: Vec::new(),
        remove_assignee: Vec::new(),
        priority: Some(p.to_string()),
    }
}

#[test]
fn edit_changes_and_clears_priority() {
    let repo = new_repo("Alice", "alice@example.com");
    let store = Store::new(&repo);
    let uuid = store.create("Prio me", "", vec![], None, Some("low".into())).unwrap();

    let (applied, failure, _) = apply_edit(&store, &uuid, edit_steps(&edit_of_priority("high")));
    assert!(failure.is_none());
    assert!(applied.iter().any(|l| l.contains("set priority: high")), "got: {applied:?}");
    let cache = Cache::build(&repo).unwrap();
    let j = gli::output::issue_json(&cache, cache.issue(&uuid).unwrap());
    assert_eq!(j.priority.as_deref(), Some("high"));

    let (applied, failure, _) = apply_edit(&store, &uuid, edit_steps(&edit_of_priority("")));
    assert!(failure.is_none());
    assert!(applied.iter().any(|l| l.contains("clear priority")), "got: {applied:?}");
    let cache = Cache::build(&repo).unwrap();
    let j = gli::output::issue_json(&cache, cache.issue(&uuid).unwrap());
    assert!(j.priority.is_none(), "priority should be cleared");
}

#[test]
fn json_output_is_valid_and_complete() {
    let repo = new_repo("Alice", "alice@example.com");
    let store = Store::new(&repo);
    let uuid = store
        .create("JSON me", "", vec!["x".into()], None, Some("low".into()))
        .unwrap();
    store.append(&uuid, OpKind::Comment { text: "a note".into() }).unwrap();

    let cache = Cache::build(&repo).unwrap();
    assert_eq!(cache.issues.len(), 1);
    let j = gli::output::issue_json(&cache, &cache.issues[0]);
    assert_eq!(j.title, "JSON me");
    assert_eq!(j.priority.as_deref(), Some("low"));
    assert_eq!(j.comment_count, 1);
    assert_eq!(j.comments[0].text, "a note");
}

#[test]
fn config_defaults_apply_on_create() {
    let repo = new_repo("Alice", "alice@example.com");
    let store = Store::new(&repo);
    let (labels, assignee, priority) = create_fields(
        Vec::new(),
        None,
        None,
        Some("triage,needs-info".into()),
        None,
        Some("medium".into()),
    );
    let first = store.create("Uses defaults", "", labels, assignee, priority).unwrap();
    let cache = Cache::build(&repo).unwrap();
    let j = gli::output::issue_json(&cache, cache.issue(&first).unwrap());
    assert_eq!(j.priority.as_deref(), Some("medium"));
    assert!(j.labels.iter().any(|l| l == "triage"));
    assert!(j.labels.iter().any(|l| l == "needs-info"));

    let (labels, assignee, priority) = create_fields(
        Vec::new(),
        None,
        Some("high".into()),
        Some("triage,needs-info".into()),
        None,
        Some("medium".into()),
    );
    let second = store.create("Explicit", "", labels, assignee, priority).unwrap();
    let cache = Cache::build(&repo).unwrap();
    let j = gli::output::issue_json(&cache, cache.issue(&second).unwrap());
    assert_eq!(j.priority.as_deref(), Some("high"));
}

#[test]
fn multiple_assignees_and_metadata_flow() {
    let repo = new_repo("Alice", "alice@example.com");
    let store = Store::new(&repo);
    let uuid = store
        .create("Parser crash", "", vec![], Some("alice".into()), None)
        .unwrap();
    let both = EditChanges {
        title: None,
        desc: None,
        add_label: Vec::new(),
        remove_label: Vec::new(),
        assignee: None,
        add_assignee: vec!["bob".into(), "carol".into()],
        remove_assignee: Vec::new(),
        priority: None,
    };
    let (_, failure, _) = apply_edit(&store, &uuid, edit_steps(&both));
    assert!(failure.is_none());
    let drop_alice = EditChanges {
        title: None,
        desc: None,
        add_label: Vec::new(),
        remove_label: Vec::new(),
        assignee: None,
        add_assignee: Vec::new(),
        remove_assignee: vec!["alice".into()],
        priority: None,
    };
    let (_, failure, _) = apply_edit(&store, &uuid, edit_steps(&drop_alice));
    assert!(failure.is_none());

    store
        .append(&uuid, OpKind::SetField { key: "milestone".into(), value: "v0.2".into() })
        .unwrap();
    store
        .append(&uuid, OpKind::SetField { key: "severity".into(), value: "high".into() })
        .unwrap();
    let cache = Cache::build(&repo).unwrap();
    assert_eq!(field_value(cache.issue(&uuid).unwrap(), "milestone").as_deref(), Some("v0.2"));
    store
        .append(&uuid, OpKind::SetField { key: "severity".into(), value: String::new() })
        .unwrap();

    store
        .append(&uuid, OpKind::AddFile { path: "src/parser.rs".into(), note: "here".into() })
        .unwrap();
    store
        .append(&uuid, OpKind::SetFileNote { path: "src/parser.rs".into(), note: "fixed here".into() })
        .unwrap();

    let cache = Cache::build(&repo).unwrap();
    let j = gli::output::issue_json(&cache, cache.issue(&uuid).unwrap());
    assert_eq!(j.assignees, vec!["bob".to_string(), "carol".to_string()]);
    assert!(j.fields.iter().any(|(k, v)| k == "milestone" && v == "v0.2"));
    assert!(!j.fields.iter().any(|(k, _)| k == "severity"));
    assert_eq!(j.files[0].0, "src/parser.rs");
    assert_eq!(j.files[0].1.as_deref(), Some("fixed here"));

    let mut f = no_filter();
    f.assignee = Some("carol".into());
    let rows = list_rows(&cache.issues, &f, "newest");
    assert!(rows.iter().any(|&k| cache.issues[k].title() == "Parser crash"));
}
