//! Error types for gli.
//!
//! A small typed error set for the domain-meaningful failures the command
//! layer reacts to (not a git repo, ambiguous id, unknown issue, malformed
//! data, refused content, a lost compare-and-swap race).
use crate::text::{dec, push_char, push_str, to_chars, usize_to_string, u64_to_string};
use vstd::prelude::*;

verus! {

#[derive(Debug)]
pub enum GliError {
    NotAGitRepo,
    UnknownIssue(String),
    AmbiguousId { query: String, candidates: Vec<String> },
    NoActorIdentity,
    MalformedOp { commit: String, reason: String },
    InvalidLabel { label: String, reason: String },
    Git(String),
    FieldTooLarge { field: String, size: usize, limit: usize },
    Conflict { uuid: String, attempts: u32 },
}

/// The mathematical model of a [`GliError`]: its text fields as character
/// sequences.
pub enum ErrView {
    NotAGitRepo,
    UnknownIssue(Seq<char>),
    AmbiguousId { query: Seq<char>, candidates: Seq<Seq<char>> },
    NoActorIdentity,
    MalformedOp { commit: Seq<char>, reason: Seq<char> },
    InvalidLabel { label: Seq<char>, reason: Seq<char> },
    Git(Seq<char>),
    FieldTooLarge { field: Seq<char>, size: nat, limit: nat },
    Conflict { uuid: Seq<char>, attempts: nat },
}

impl View for GliError {
    type V = ErrView;

    open spec fn view(&self) -> ErrView {
        match self {
            GliError::NotAGitRepo => ErrView::NotAGitRepo,
            GliError::UnknownIssue(s) => ErrView::UnknownIssue(s@),
            GliError::AmbiguousId { query, candidates } => ErrView::AmbiguousId {
                query: query@,
                candidates: candidates.deep_view(),
            },
            GliError::NoActorIdentity => ErrView::NoActorIdentity,
            GliError::MalformedOp { commit, reason } => ErrView::MalformedOp {
                commit: commit@,
                reason: reason@,
            },
            GliError::InvalidLabel { label, reason } => ErrView::InvalidLabel {
                label: label@,
                reason: reason@,
            },
            GliError::Git(s) => ErrView::Git(s@),
            GliError::FieldTooLarge { field, size, limit } => ErrView::FieldTooLarge {
                field: field@,
                size: *size as nat,
                limit: *limit as nat,
            },
            GliError::Conflict { uuid, attempts } => ErrView::Conflict {
                uuid: uuid@,
                attempts: *attempts as nat,
            },
        }
    }
}

/// `items` joined with `", "`.
pub open spec fn join_comma(items: Seq<Seq<char>>) -> Seq<char>
    decreases items.len(),
{
    if items.len() == 0 {
        Seq::empty()
    } else if items.len() == 1 {
        items[0]
    } else {
        join_comma(items.drop_last()) + ", "@ + items.last()
    }
}

/// One character as Rust's `{:?}` writes it inside a string: tab, carriage
/// return, newline, backslash and double quote escaped, anything else kept.
pub open spec fn escape_char(c: char) -> Seq<char> {
    if c == '\t' {
        seq!['\\', 't']
    } else if c == '\r' {
        seq!['\\', 'r']
    } else if c == '\n' {
        seq!['\\', 'n']
    } else if c == '\\' {
        seq!['\\', '\\']
    } else if c == '"' {
        seq!['\\', '"']
    } else {
        seq![c]
    }
}

pub open spec fn escaped(s: Seq<char>) -> Seq<char>
    decreases s.len(),
{
    if s.len() == 0 {
        Seq::empty()
    } else {
        escaped(s.drop_last()) + escape_char(s.last())
    }
}

/// A string in double quotes with the escapes of `{:?}`.
pub open spec fn quoted(s: Seq<char>) -> Seq<char> {
    seq!['"'] + escaped(s) + seq!['"']
}

fn push_quoted(r: &mut String, s: &str)
    ensures
        final(r)@ == old(r)@ + quoted(s@),
{
    push_char(r, '"');
    let v = to_chars(s);
    let n = v.len();
    let mut i: usize = 0;
    let ghost start = r@;
    while i < n
        invariant
            n == v@.len(),
            i <= n,
            r@ == start + escaped(v@.take(i as int)),
        decreases n - i,
    {
        let c = v[i];
        if c == '\t' {
            push_char(r, '\\');
            push_char(r, 't');
        } else if c == '\r' {
            push_char(r, '\\');
            push_char(r, 'r');
        } else if c == '\n' {
            push_char(r, '\\');
            push_char(r, 'n');
        } else if c == '\\' {
            push_char(r, '\\');
            push_char(r, '\\');
        } else if c == '"' {
            push_char(r, '\\');
            push_char(r, '"');
        } else {
            push_char(r, c);
        }
        assert(v@.take(i + 1).drop_last() =~= v@.take(i as int));
        assert(r@ =~= start + escaped(v@.take(i + 1)));
        i = i + 1;
    }
    assert(v@.take(n as int) =~= v@);
    push_char(r, '"');
    assert(r@ =~= old(r)@ + quoted(s@));
}

/// The human-readable text of an error (what the command line prints).
pub open spec fn error_text(e: ErrView) -> Seq<char> {
    match e {
        ErrView::NotAGitRepo => "not inside a git repository (run this from a git working tree, or `git init` first)"@,
        ErrView::UnknownIssue(q) => "no issue matches '"@ + q + "'"@,
        ErrView::AmbiguousId { query, candidates } => "id '"@ + query
            + "' is ambiguous; candidates: "@ + join_comma(candidates),
        ErrView::NoActorIdentity => "could not determine an actor identity: set `git config user.email` or `user.name`"@,
        ErrView::MalformedOp { commit, reason } => "malformed operation in commit "@ + commit
            + ": "@ + reason,
        ErrView::InvalidLabel { label, reason } => "invalid label "@ + quoted(label) + ": "@
            + reason,
        ErrView::Git(s) => "git command failed: "@ + s,
        ErrView::FieldTooLarge { field, size, limit } => field + " is too large ("@ + dec(size)
            + " bytes; the limit is "@ + dec(limit) + " bytes)"@,
        ErrView::Conflict { uuid, attempts } => "issue "@ + uuid
            + " changed concurrently; gave up after "@ + dec(attempts) + " attempts"@,
    }
}

pub fn join_comma_exec(items: &Vec<String>) -> (r: String)
    ensures
        r@ == join_comma(items.deep_view()),
{
    let mut r = String::new();
    let n = items.len();
    let mut i: usize = 0;
    while i < n
        invariant
            n == items@.len(),
            i <= n,
            r@ == join_comma(items.deep_view().take(i as int)),
        decreases n - i,
    {
        if i > 0 {
            push_str(&mut r, ", ");
        }
        push_str(&mut r, items[i].as_str());
        proof {
            let t = items.deep_view().take(i + 1);
            assert(t.drop_last() =~= items.deep_view().take(i as int));
            assert(t.last() == items@[i as int]@);
            if i == 0 {
                assert(r@ =~= items@[0]@);
            }
        }
        i = i + 1;
    }
    assert(items.deep_view().take(n as int) =~= items.deep_view());
    r
}

impl GliError {
    /// The human-readable message, as the command line prints it.
    pub fn message(&self) -> (r: String)
        ensures
            r@ == error_text(self@),
    {
        let mut r = String::new();
        match self {
            GliError::NotAGitRepo => {
                push_str(
                    &mut r,
                    "not inside a git repository (run this from a git working tree, or `git init` first)",
                );
            },
            GliError::UnknownIssue(q) => {
                push_str(&mut r, "no issue matches '");
                push_str(&mut r, q.as_str());
                push_str(&mut r, "'");
            },
            GliError::AmbiguousId { query, candidates } => {
                push_str(&mut r, "id '");
                push_str(&mut r, query.as_str());
                push_str(&mut r, "' is ambiguous; candidates: ");
                let c = join_comma_exec(candidates);
                push_str(&mut r, c.as_str());
            },
            GliError::NoActorIdentity => {
                push_str(
                    &mut r,
                    "could not determine an actor identity: set `git config user.email` or `user.name`",
                );
            },
            GliError::MalformedOp { commit, reason } => {
                push_str(&mut r, "malformed operation in commit ");
                push_str(&mut r, commit.as_str());
                push_str(&mut r, ": ");
                push_str(&mut r, reason.as_str());
            },
            GliError::InvalidLabel { label, reason } => {
                push_str(&mut r, "invalid label ");
                push_quoted(&mut r, label.as_str());
                push_str(&mut r, ": ");
                push_str(&mut r, reason.as_str());
            },
            GliError::Git(s) => {
                push_str(&mut r, "git command failed: ");
                push_str(&mut r, s.as_str());
            },
            GliError::FieldTooLarge { field, size, limit } => {
                push_str(&mut r, field.as_str());
                push_str(&mut r, " is too large (");
                let a = usize_to_string(*size);
                push_str(&mut r, a.as_str());
                push_str(&mut r, " bytes; the limit is ");
                let b = usize_to_string(*limit);
                push_str(&mut r, b.as_str());
                push_str(&mut r, " bytes)");
            },
            GliError::Conflict { uuid, attempts } => {
                push_str(&mut r, "issue ");
                push_str(&mut r, uuid.as_str());
                push_str(&mut r, " changed concurrently; gave up after ");
                let a = u64_to_string(*attempts as u64);
                push_str(&mut r, a.as_str());
                push_str(&mut r, " attempts");
            },
        }
        proof {
            assert(r@ =~= error_text(self@));
        }
        r
    }
}

} // verus!
