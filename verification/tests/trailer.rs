use gli::trailer::{split_message, TrailerBlock};

#[test]
fn splits_subject_body_and_trailers() {
    let msg = "Subject line\n\nBody paragraph one.\n\nBody two.\n\nOp: comment\nActor: alice\n";
    let (subject, body, trailers) = split_message(msg);
    assert_eq!(subject, "Subject line");
    assert_eq!(body, "Body paragraph one.\n\nBody two.");
    assert_eq!(trailers.get("Op").unwrap(), "comment");
    assert_eq!(trailers.get("Actor").unwrap(), "alice");
}

#[test]
fn empty_trailer_value_is_preserved() {
    let msg = "S\n\nAssignee:\nOp: set-assignee\n";
    let (_, _, trailers) = split_message(msg);
    assert_eq!(trailers.get("Assignee").unwrap(), "");
    assert_eq!(trailers.get("Op").unwrap(), "set-assignee");
}

#[test]
fn body_that_looks_like_trailers_is_not_consumed_as_trailers() {
    // Only the LAST paragraph is the trailer block; a trailer-shaped line
    // inside the body must stay in the body.
    let msg = "S\n\nNote: this looks like a trailer\n\nOp: comment\nActor: a\n";
    let (_, body, trailers) = split_message(msg);
    assert_eq!(body, "Note: this looks like a trailer");
    assert_eq!(trailers.get("Op").unwrap(), "comment");
    assert!(!trailers.contains_key("Note"));
}

#[test]
fn single_paragraph_message_has_no_trailers() {
    let msg = "Just a subject";
    let (subject, body, trailers) = split_message(msg);
    assert_eq!(subject, "Just a subject");
    assert_eq!(body, "");
    assert!(trailers.is_empty());
}

#[test]
fn render_round_trips_through_split() {
    let mut t = TrailerBlock::new();
    t.push("Op", "comment");
    t.push("Assignee", "");
    t.push("Lamport", "3");
    let rendered = t.render();
    let msg = format!("Subject\n\n{rendered}\n");
    let (_, _, trailers) = split_message(&msg);
    assert_eq!(trailers.get("Op").unwrap(), "comment");
    assert_eq!(trailers.get("Assignee").unwrap(), "");
    assert_eq!(trailers.get("Lamport").unwrap(), "3");
}

#[test]
fn trailer_lines_right_under_the_subject_are_body_text() {
    let (subject, body, trailers) = split_message("Subject\nOp: comment");
    assert_eq!(subject, "Subject");
    assert_eq!(body, "Op: comment");
    assert!(trailers.is_empty());
}
