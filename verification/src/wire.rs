//! Operations as Git commit messages.
//!
//! An [`Op`] is written as a subject line summarising it for humans, an
//! optional body carrying its multi-line payload (a description or comment
//! text), and a trailer block with its structured fields followed by the
//! standard metadata (`Op`, `Op-Id`, `Lamport`, `Actor`, `Format-Version`).
//! Reading ignores unknown trailers and never rejects a higher format version.
use crate::error::{join_comma, join_comma_exec, ErrView, GliError};
use crate::model::{slug_of, spec_state_parse, state_str, KindView, Op, OpKind, OpView, State, FORMAT_VERSION};
use crate::text::{
    contains_char, dec, is_ascii_digit, is_trimmed, is_ws, lemma_split_nonempty, parse_u64_str, parse_unsigned,
    push_char, push_str, split_chars, split_on, str_eq, to_chars, trim, trim_range, trim_str,
    range_to_string, u64_to_string,
};
use crate::trailer::{block_round_trips, lemma_split_composed, pairs_map, body_round_trips, valid_key, one_line, render_block, split_message, spec_split_message, TrailerBlock, Trailers};
use vstd::prelude::*;

verus! {

// ---------------------------------------------------------------------------
// Writing
// ---------------------------------------------------------------------------

/// The first line of `s`, trimmed (empty for an empty `s`).
pub open spec fn first_line_of(s: Seq<char>) -> Seq<char> {
    trim(split_on(s, '\n')[0])
}

/// The subject line of the commit that records an operation.
pub open spec fn subject_of(k: KindView) -> Seq<char> {
    match k {
        KindView::Create { title, .. } => "Create: "@ + first_line_of(title),
        KindView::Comment { .. } => "Comment"@,
        KindView::SetTitle { title } => "Set title: "@ + first_line_of(title),
        KindView::SetDescription { .. } => "Set description"@,
        KindView::SetState { state, .. } => "Set state: "@ + state_str(state),
        KindView::SetAssignee { assignee } => match assignee {
            Some(a) => "Set assignee: "@ + a,
            None => "Clear assignee"@,
        },
        KindView::SetPriority { priority } => match priority {
            Some(p) => "Set priority: "@ + p,
            None => "Clear priority"@,
        },
        KindView::AddLabel { label } => "Add label: "@ + label,
        KindView::RemoveLabel { label } => "Remove label: "@ + label,
        KindView::SetArchived { archived } => if archived {
            "Archive"@
        } else {
            "Restore"@
        },
        KindView::AddAssignee { assignee } => "Add assignee: "@ + assignee,
        KindView::RemoveAssignee { assignee } => "Remove assignee: "@ + assignee,
        KindView::SetField { key, .. } => "Set field: "@ + key,
        KindView::AddFile { path, .. } => "Attach file: "@ + path,
        KindView::SetFileNote { path, .. } => "Set file note: "@ + path,
        KindView::RemoveFile { path } => "Detach file: "@ + path,
    }
}

/// The free-form body of the operations that carry one.
pub open spec fn body_of(k: KindView) -> Option<Seq<char>> {
    match k {
        KindView::Create { description, .. } => if description.len() > 0 {
            Some(description)
        } else {
            None
        },
        KindView::Comment { text } => Some(text),
        KindView::SetDescription { description } => Some(description),
        _ => None,
    }
}

/// A trailer as a block holds it: its value on one line.
pub open spec fn kv(k: Seq<char>, v: Seq<char>) -> (Seq<char>, Seq<char>) {
    (k, one_line(v))
}

pub open spec fn push_opt(ps: Seq<(Seq<char>, Seq<char>)>, k: Seq<char>, o: Option<Seq<char>>) -> Seq<
    (Seq<char>, Seq<char>),
> {
    match o {
        Some(v) => ps.push(kv(k, v)),
        None => ps,
    }
}

pub open spec fn labels_value(labels: Seq<Seq<char>>) -> Option<Seq<char>> {
    if labels.len() > 0 {
        Some(join_comma(labels))
    } else {
        None
    }
}

pub open spec fn or_empty(o: Option<Seq<char>>) -> Seq<char> {
    match o {
        Some(v) => v,
        None => Seq::empty(),
    }
}

/// The operation-specific trailers, in the order they are written.
pub open spec fn kind_trailers(k: KindView) -> Seq<(Seq<char>, Seq<char>)> {
    let e = Seq::<(Seq<char>, Seq<char>)>::empty();
    match k {
        KindView::Create { title, labels, assignee, priority, .. } => push_opt(
            push_opt(
                push_opt(e.push(kv("Title"@, title)), "Labels"@, labels_value(labels)),
                "Assignee"@,
                assignee,
            ),
            "Priority"@,
            priority,
        ),
        KindView::Comment { .. } => e,
        KindView::SetTitle { title } => e.push(kv("Title"@, title)),
        KindView::SetDescription { .. } => e,
        KindView::SetState { state, reason, fixed_by } => push_opt(
            push_opt(e.push(kv("State"@, state_str(state))), "Reason"@, reason),
            "Fixed-By"@,
            fixed_by,
        ),
        KindView::SetAssignee { assignee } => e.push(kv("Assignee"@, or_empty(assignee))),
        KindView::SetPriority { priority } => e.push(kv("Priority"@, or_empty(priority))),
        KindView::AddLabel { label } => e.push(kv("Label"@, label)),
        KindView::RemoveLabel { label } => e.push(kv("Label"@, label)),
        KindView::SetArchived { archived } => e.push(
            kv(
                "Archived"@,
                if archived {
                    "true"@
                } else {
                    "false"@
                },
            ),
        ),
        KindView::AddAssignee { assignee } => e.push(kv("Assignee"@, assignee)),
        KindView::RemoveAssignee { assignee } => e.push(kv("Assignee"@, assignee)),
        KindView::SetField { key, value } => e.push(kv("Field"@, key)).push(kv("Value"@, value)),
        KindView::AddFile { path, note } => e.push(kv("Path"@, path)).push(kv("Note"@, note)),
        KindView::SetFileNote { path, note } => e.push(kv("Path"@, path)).push(kv("Note"@, note)),
        KindView::RemoveFile { path } => e.push(kv("Path"@, path)),
    }
}

/// Every trailer of an operation: its own, then the standard metadata.
pub open spec fn op_trailers(op: OpView) -> Seq<(Seq<char>, Seq<char>)> {
    kind_trailers(op.kind).push(kv("Op"@, slug_of(op.kind))).push(kv("Op-Id"@, op.id)).push(
        kv("Lamport"@, dec(op.lamport as nat)),
    ).push(kv("Actor"@, op.actor)).push(kv("Format-Version"@, dec(op.format_version as nat)))
}

/// The full commit message of an operation: subject, blank line, optional
/// body and blank line, then the trailer block.
pub open spec fn message_of(op: OpView) -> Seq<char> {
    let subj = subject_of(op.kind);
    let mid = match body_of(op.kind) {
        Some(b) => subj + seq!['\n', '\n'] + b + seq!['\n', '\n'],
        None => subj + seq!['\n', '\n'],
    };
    mid + render_block(op_trailers(op))
}

/// The first line of `s`, trimmed.
pub fn first_line(s: &str) -> (r: String)
    ensures
        r@ == first_line_of(s@),
{
    let v = to_chars(s);
    let lines = split_chars(v.as_slice(), '\n');
    proof {
        lemma_split_nonempty(v@, '\n');
    }
    let (a, b) = trim_range(lines[0].as_slice());
    range_to_string(lines[0].as_slice(), a, b)
}

fn concat(a: &str, b: &str) -> (r: String)
    ensures
        r@ == a@ + b@,
{
    let mut s = a.to_owned();
    push_str(&mut s, b);
    s
}

fn subject(kind: &OpKind) -> (r: String)
    ensures
        r@ == subject_of(kind@),
{
    match kind {
        OpKind::Create { title, .. } => concat("Create: ", first_line(title.as_str()).as_str()),
        OpKind::Comment { .. } => "Comment".to_owned(),
        OpKind::SetTitle { title } => concat("Set title: ", first_line(title.as_str()).as_str()),
        OpKind::SetDescription { .. } => "Set description".to_owned(),
        OpKind::SetState { state, .. } => concat("Set state: ", state.as_str()),
        OpKind::SetAssignee { assignee } => match assignee {
            Some(a) => concat("Set assignee: ", a.as_str()),
            None => "Clear assignee".to_owned(),
        },
        OpKind::SetPriority { priority } => match priority {
            Some(p) => concat("Set priority: ", p.as_str()),
            None => "Clear priority".to_owned(),
        },
        OpKind::AddLabel { label } => concat("Add label: ", label.as_str()),
        OpKind::RemoveLabel { label } => concat("Remove label: ", label.as_str()),
        OpKind::SetArchived { archived } => if *archived {
            "Archive".to_owned()
        } else {
            "Restore".to_owned()
        },
        OpKind::AddAssignee { assignee } => concat("Add assignee: ", assignee.as_str()),
        OpKind::RemoveAssignee { assignee } => concat("Remove assignee: ", assignee.as_str()),
        OpKind::SetField { key, .. } => concat("Set field: ", key.as_str()),
        OpKind::AddFile { path, .. } => concat("Attach file: ", path.as_str()),
        OpKind::SetFileNote { path, .. } => concat("Set file note: ", path.as_str()),
        OpKind::RemoveFile { path } => concat("Detach file: ", path.as_str()),
    }
}

fn push_opt_exec(t: &mut TrailerBlock, key: &str, o: &Option<String>)
    ensures
        final(t)@ == push_opt(old(t)@, key@, o.deep_view()),
{
    if let Some(v) = o {
        t.push(key, v.as_str());
    }
}

fn push_or_empty(t: &mut TrailerBlock, key: &str, o: &Option<String>)
    ensures
        final(t)@ == old(t)@.push(kv(key@, or_empty(o.deep_view()))),
{
    match o {
        Some(v) => t.push(key, v.as_str()),
        None => {
            t.push(key, "");
            proof {
                reveal_strlit("");
            }
            assert(""@ =~= Seq::<char>::empty());
        },
    }
}

fn kind_block(kind: &OpKind) -> (t: TrailerBlock)
    ensures
        t@ == kind_trailers(kind@),
{
    let mut t = TrailerBlock::new();
    match kind {
        OpKind::Create { title, labels, assignee, priority, .. } => {
            t.push("Title", title.as_str());
            if labels.len() > 0 {
                let joined = join_comma_exec(labels);
                t.push("Labels", joined.as_str());
            }
            push_opt_exec(&mut t, "Assignee", assignee);
            push_opt_exec(&mut t, "Priority", priority);
            assert(t@ == kind_trailers(kind@));
        },
        OpKind::Comment { .. } => {},
        OpKind::SetTitle { title } => t.push("Title", title.as_str()),
        OpKind::SetDescription { .. } => {},
        OpKind::SetState { state, reason, fixed_by } => {
            t.push("State", state.as_str());
            push_opt_exec(&mut t, "Reason", reason);
            push_opt_exec(&mut t, "Fixed-By", fixed_by);
            assert(t@ == kind_trailers(kind@));
        },
        OpKind::SetAssignee { assignee } => push_or_empty(&mut t, "Assignee", assignee),
        OpKind::SetPriority { priority } => push_or_empty(&mut t, "Priority", priority),
        OpKind::AddLabel { label } => t.push("Label", label.as_str()),
        OpKind::RemoveLabel { label } => t.push("Label", label.as_str()),
        OpKind::SetArchived { archived } => t.push(
            "Archived",
            if *archived {
                "true"
            } else {
                "false"
            },
        ),
        OpKind::AddAssignee { assignee } => t.push("Assignee", assignee.as_str()),
        OpKind::RemoveAssignee { assignee } => t.push("Assignee", assignee.as_str()),
        OpKind::SetField { key, value } => {
            t.push("Field", key.as_str());
            t.push("Value", value.as_str());
        },
        OpKind::AddFile { path, note } => {
            t.push("Path", path.as_str());
            t.push("Note", note.as_str());
        },
        OpKind::SetFileNote { path, note } => {
            t.push("Path", path.as_str());
            t.push("Note", note.as_str());
        },
        OpKind::RemoveFile { path } => t.push("Path", path.as_str()),
    }
    t
}

fn body_text(kind: &OpKind) -> (r: Option<&String>)
    ensures
        r.deep_view() == body_of(kind@),
{
    match kind {
        OpKind::Create { description, .. } => if description.as_str().is_empty() {
            None
        } else {
            Some(description)
        },
        OpKind::Comment { text } => Some(text),
        OpKind::SetDescription { description } => Some(description),
        _ => None,
    }
}

impl Op {
    /// The Git commit message that records this operation: subject, optional
    /// body, then the trailer block. Deterministic, so it reads back exactly.
    pub fn to_commit_message(&self) -> (r: String)
        ensures
            r@ == message_of(self@),
    {
        let mut t = kind_block(&self.kind);
        t.push("Op", self.kind.slug());
        t.push("Op-Id", self.id.as_str());
        let lamport = u64_to_string(self.lamport);
        t.push("Lamport", lamport.as_str());
        t.push("Actor", self.actor.as_str());
        let version = u64_to_string(self.format_version as u64);
        t.push("Format-Version", version.as_str());
        let mut msg = subject(&self.kind);
        match body_text(&self.kind) {
            Some(b) => {
                push_char(&mut msg, '\n');
                push_char(&mut msg, '\n');
                push_str(&mut msg, b.as_str());
            },
            None => {},
        }
        push_char(&mut msg, '\n');
        push_char(&mut msg, '\n');
        let block = t.render();
        push_str(&mut msg, block.as_str());
        proof {
            let subj = subject_of(self.kind@);
            match body_of(self.kind@) {
                Some(b) => {
                    assert(msg@ =~= subj + seq!['\n', '\n'] + b + seq!['\n', '\n'] + block@);
                },
                None => {
                    assert(msg@ =~= subj + seq!['\n', '\n'] + block@);
                },
            }
        }
        msg
    }
}


// ---------------------------------------------------------------------------
// Reading
// ---------------------------------------------------------------------------

/// The value of trailer `k`, if the message has one.
pub open spec fn tget(t: Map<Seq<char>, Seq<char>>, k: Seq<char>) -> Option<Seq<char>> {
    if t.contains_key(k) {
        Some(t[k])
    } else {
        None
    }
}

/// A present, non-empty value (an empty one means "cleared").
pub open spec fn nonempty(o: Option<Seq<char>>) -> Option<Seq<char>> {
    match o {
        Some(v) => if v.len() > 0 {
            Some(v)
        } else {
            None
        },
        None => None,
    }
}

/// The pieces trimmed, with the empty ones dropped.
pub open spec fn trimmed_pieces(ps: Seq<Seq<char>>) -> Seq<Seq<char>>
    decreases ps.len(),
{
    if ps.len() == 0 {
        Seq::empty()
    } else {
        let r = trimmed_pieces(ps.drop_last());
        let t = trim(ps.last());
        if t.len() > 0 {
            r.push(t)
        } else {
            r
        }
    }
}

/// The labels of a comma-separated `Labels:` value.
pub open spec fn label_list(s: Seq<char>) -> Seq<Seq<char>> {
    trimmed_pieces(split_on(s, ','))
}

pub open spec fn malformed(commit: Seq<char>, reason: Seq<char>) -> ErrView {
    ErrView::MalformedOp { commit, reason }
}

/// The payload named by the `Op` slug, read from the body and trailers, or
/// the reason it cannot be read.
pub open spec fn parse_kind(slug: Seq<char>, body: Seq<char>, t: Map<Seq<char>, Seq<char>>) -> Result<
    KindView,
    Seq<char>,
> {
    if slug == "create"@ {
        Ok(
            KindView::Create {
                title: or_empty(tget(t, "Title"@)),
                description: body,
                labels: match tget(t, "Labels"@) {
                    Some(v) => label_list(v),
                    None => Seq::empty(),
                },
                assignee: nonempty(tget(t, "Assignee"@)),
                priority: nonempty(tget(t, "Priority"@)),
            },
        )
    } else if slug == "comment"@ {
        Ok(KindView::Comment { text: body })
    } else if slug == "set-title"@ {
        Ok(KindView::SetTitle { title: or_empty(tget(t, "Title"@)) })
    } else if slug == "set-description"@ {
        Ok(KindView::SetDescription { description: body })
    } else if slug == "set-state"@ {
        match tget(t, "State"@) {
            Some(v) => match spec_state_parse(v) {
                Some(st) => Ok(
                    KindView::SetState {
                        state: st,
                        reason: nonempty(tget(t, "Reason"@)),
                        fixed_by: nonempty(tget(t, "Fixed-By"@)),
                    },
                ),
                None => Err("set-state has no valid State trailer"@),
            },
            None => Err("set-state has no valid State trailer"@),
        }
    } else if slug == "set-assignee"@ {
        Ok(KindView::SetAssignee { assignee: nonempty(tget(t, "Assignee"@)) })
    } else if slug == "set-priority"@ {
        Ok(KindView::SetPriority { priority: nonempty(tget(t, "Priority"@)) })
    } else if slug == "add-label"@ {
        match tget(t, "Label"@) {
            Some(l) => Ok(KindView::AddLabel { label: l }),
            None => Err("add-label has no Label trailer"@),
        }
    } else if slug == "remove-label"@ {
        match tget(t, "Label"@) {
            Some(l) => Ok(KindView::RemoveLabel { label: l }),
            None => Err("remove-label has no Label trailer"@),
        }
    } else if slug == "set-archived"@ {
        Ok(
            KindView::SetArchived {
                archived: match tget(t, "Archived"@) {
                    Some(v) => trim(v) == "true"@,
                    None => true,
                },
            },
        )
    } else if slug == "add-assignee"@ {
        match tget(t, "Assignee"@) {
            Some(a) => Ok(KindView::AddAssignee { assignee: a }),
            None => Err("add-assignee has no Assignee trailer"@),
        }
    } else if slug == "remove-assignee"@ {
        match tget(t, "Assignee"@) {
            Some(a) => Ok(KindView::RemoveAssignee { assignee: a }),
            None => Err("remove-assignee has no Assignee trailer"@),
        }
    } else if slug == "set-field"@ {
        match tget(t, "Field"@) {
            Some(k) => Ok(KindView::SetField { key: k, value: or_empty(tget(t, "Value"@)) }),
            None => Err("set-field has no Field trailer"@),
        }
    } else if slug == "add-file"@ {
        match tget(t, "Path"@) {
            Some(p) => Ok(KindView::AddFile { path: p, note: or_empty(tget(t, "Note"@)) }),
            None => Err("add-file has no Path trailer"@),
        }
    } else if slug == "set-file-note"@ {
        match tget(t, "Path"@) {
            Some(p) => Ok(KindView::SetFileNote { path: p, note: or_empty(tget(t, "Note"@)) }),
            None => Err("set-file-note has no Path trailer"@),
        }
    } else if slug == "remove-file"@ {
        match tget(t, "Path"@) {
            Some(p) => Ok(KindView::RemoveFile { path: p }),
            None => Err("remove-file has no Path trailer"@),
        }
    } else {
        Err("unknown Op type '"@ + slug + "'"@)
    }
}

/// The format version a `Format-Version:` trailer names (missing or
/// unreadable means the current one).
pub open spec fn version_of(t: Map<Seq<char>, Seq<char>>) -> u32 {
    match tget(t, "Format-Version"@) {
        Some(v) => match parse_unsigned(trim(v), u32::MAX as nat) {
            Some(n) => n as u32,
            None => FORMAT_VERSION,
        },
        None => FORMAT_VERSION,
    }
}

/// An operation read back from its commit message, or why it cannot be.
/// Unknown trailers are ignored; any format version is accepted.
pub open spec fn spec_parse_op(m: Seq<char>, commit: Seq<char>) -> Result<OpView, ErrView> {
    let (_subject, body, t) = spec_split_message(m);
    match tget(t, "Op"@) {
        None => Err(malformed(commit, "missing Op trailer"@)),
        Some(slug) => match tget(t, "Op-Id"@) {
            None => Err(malformed(commit, "missing Op-Id trailer"@)),
            Some(id) => match tget(t, "Lamport"@) {
                None => Err(malformed(commit, "missing Lamport trailer"@)),
                Some(lv) => match parse_unsigned(trim(lv), u64::MAX as nat) {
                    None => Err(malformed(commit, "Lamport is not a non-negative integer"@)),
                    Some(lamport) => match tget(t, "Actor"@) {
                        None => Err(malformed(commit, "missing Actor trailer"@)),
                        Some(actor) => match parse_kind(slug, body, t) {
                            Err(reason) => Err(malformed(commit, reason)),
                            Ok(kind) => Ok(
                                OpView {
                                    id,
                                    lamport: lamport as u64,
                                    actor,
                                    format_version: version_of(t),
                                    kind,
                                    commit: Some(commit),
                                    author: None,
                                    timestamp: None,
                                },
                            ),
                        },
                    },
                },
            },
        },
    }
}

fn malformed_err(commit: &str, reason: &str) -> (e: GliError)
    ensures
        e@ == malformed(commit@, reason@),
{
    GliError::MalformedOp { commit: commit.to_owned(), reason: reason.to_owned() }
}

fn get_or_empty(t: &Trailers, key: &str) -> (r: String)
    ensures
        r@ == or_empty(tget(t@, key@)),
{
    match t.get(key) {
        Some(v) => v.clone(),
        None => String::new(),
    }
}

fn get_nonempty(t: &Trailers, key: &str) -> (r: Option<String>)
    ensures
        r.deep_view() == nonempty(tget(t@, key@)),
{
    match t.get(key) {
        Some(v) => if v.as_str().is_empty() {
            None
        } else {
            Some(v.clone())
        },
        None => None,
    }
}

/// The labels of a comma-separated list, trimmed, empty entries dropped.
pub fn split_labels(s: &str) -> (r: Vec<String>)
    ensures
        r.deep_view() == label_list(s@),
{
    let v = to_chars(s);
    let pieces = split_chars(v.as_slice(), ',');
    let ghost ps = split_on(v@, ',');
    let mut r: Vec<String> = Vec::new();
    let n = pieces.len();
    let mut i: usize = 0;
    while i < n
        invariant
            n == pieces@.len(),
            n == ps.len(),
            ps == split_on(s@, ','),
            forall|j: int| 0 <= j < n ==> #[trigger] pieces@[j]@ == ps[j],
            i <= n,
            r.deep_view() == trimmed_pieces(ps.take(i as int)),
        decreases n - i,
    {
        let (a, b) = trim_range(pieces[i].as_slice());
        proof {
            assert(ps.take(i + 1).drop_last() =~= ps.take(i as int));
            assert(ps.take(i + 1).last() == ps[i as int]);
        }
        if a < b {
            let piece = range_to_string(pieces[i].as_slice(), a, b);
            let ghost before = r.deep_view();
            r.push(piece);
            assert(r.deep_view() =~= before.push(trim(ps[i as int])));
        }
        i = i + 1;
    }
    assert(ps.take(n as int) =~= ps);
    r
}

fn required(t: &Trailers, key: &str, missing: &str) -> (r: Result<String, String>)
    ensures
        match r {
            Ok(v) => tget(t@, key@) == Some(v@),
            Err(e) => tget(t@, key@) is None && e@ == missing@,
        },
{
    match t.get(key) {
        Some(v) => Ok(v.clone()),
        None => Err(missing.to_owned()),
    }
}

/// Reads the payload named by `slug`; see [`parse_kind`].
#[verifier::rlimit(40)]
pub fn read_kind(slug: &str, body: &String, t: &Trailers) -> (r: Result<OpKind, String>)
    ensures
        match r {
            Ok(k) => parse_kind(slug@, body@, t@) == Ok::<KindView, Seq<char>>(k@),
            Err(e) => parse_kind(slug@, body@, t@) == Err::<KindView, Seq<char>>(e@),
        },
{
    if str_eq(slug, "create") {
        let labels = match t.get("Labels") {
            Some(v) => split_labels(v.as_str()),
            None => {
                let e: Vec<String> = Vec::new();
                assert(e.deep_view() =~= Seq::<Seq<char>>::empty());
                e
            },
        };
        Ok(OpKind::Create {
                title: get_or_empty(t, "Title"),
                description: body.clone(),
                labels,
                assignee: get_nonempty(t, "Assignee"),
                priority: get_nonempty(t, "Priority"),
            })
    } else if str_eq(slug, "comment") {
        Ok(OpKind::Comment { text: body.clone() })
    } else if str_eq(slug, "set-title") {
        Ok(OpKind::SetTitle { title: get_or_empty(t, "Title") })
    } else if str_eq(slug, "set-description") {
        Ok(OpKind::SetDescription { description: body.clone() })
    } else if str_eq(slug, "set-state") {
        let parsed = match t.get("State") {
            Some(v) => State::parse(v.as_str()),
            None => None,
        };
        match parsed {
            Some(st) => Ok(OpKind::SetState {
                    state: st,
                    reason: get_nonempty(t, "Reason"),
                    fixed_by: get_nonempty(t, "Fixed-By"),
                }),
            None => {
                Err("set-state has no valid State trailer".to_owned())
            },
        }
    } else if str_eq(slug, "set-assignee") {
        Ok(OpKind::SetAssignee { assignee: get_nonempty(t, "Assignee") })
    } else if str_eq(slug, "set-priority") {
        Ok(OpKind::SetPriority { priority: get_nonempty(t, "Priority") })
    } else if str_eq(slug, "add-label") {
        let label = match required(t, "Label", "add-label has no Label trailer") {
            Ok(v) => v,
Err(e) => return Err(e),
        };
        Ok(OpKind::AddLabel { label })
    } else if str_eq(slug, "remove-label") {
        let label = match required(t, "Label", "remove-label has no Label trailer") {
            Ok(v) => v,
Err(e) => return Err(e),
        };
        Ok(OpKind::RemoveLabel { label })
    } else if str_eq(slug, "set-archived") {
        let archived = match t.get("Archived") {
            Some(v) => {
                let tv = trim_str(v.as_str());
                str_eq(tv.as_str(), "true")
            },
            None => true,
        };
        Ok(OpKind::SetArchived { archived })
    } else if str_eq(slug, "add-assignee") {
        let assignee = match required(t, "Assignee", "add-assignee has no Assignee trailer") {
            Ok(v) => v,
Err(e) => return Err(e),
        };
        Ok(OpKind::AddAssignee { assignee })
    } else if str_eq(slug, "remove-assignee") {
        let assignee = match required(t, "Assignee", "remove-assignee has no Assignee trailer") {
            Ok(v) => v,
Err(e) => return Err(e),
        };
        Ok(OpKind::RemoveAssignee { assignee })
    } else if str_eq(slug, "set-field") {
        let key = match required(t, "Field", "set-field has no Field trailer") {
            Ok(v) => v,
Err(e) => return Err(e),
        };
        Ok(OpKind::SetField { key, value: get_or_empty(t, "Value") })
    } else if str_eq(slug, "add-file") {
        let path = match required(t, "Path", "add-file has no Path trailer") {
            Ok(v) => v,
Err(e) => return Err(e),
        };
        Ok(OpKind::AddFile { path, note: get_or_empty(t, "Note") })
    } else if str_eq(slug, "set-file-note") {
        let path = match required(t, "Path", "set-file-note has no Path trailer") {
            Ok(v) => v,
Err(e) => return Err(e),
        };
        Ok(OpKind::SetFileNote { path, note: get_or_empty(t, "Note") })
    } else if str_eq(slug, "remove-file") {
        let path = match required(t, "Path", "remove-file has no Path trailer") {
            Ok(v) => v,
Err(e) => return Err(e),
        };
        Ok(OpKind::RemoveFile { path })
    } else {
        let mut reason = "unknown Op type '".to_owned();
        push_str(&mut reason, slug);
        push_char(&mut reason, '\'');
        proof {
            reveal_strlit("'");
            assert("'"@ =~= seq!['\'']);
        }
        assert(reason@ =~= "unknown Op type '"@ + slug@ + "'"@);
        Err(reason)
    }
}

impl Op {
    /// Reads an operation back from a commit message. Unknown trailers are
    /// ignored, never rejected, and any format version is accepted; `commit`
    /// names the commit in an error and is recorded as the op's provenance.
    pub fn from_commit_message(message: &str, commit: &str) -> (r: Result<Op, GliError>)
        ensures
            match r {
                Ok(op) => spec_parse_op(message@, commit@) == Ok::<OpView, ErrView>(op@),
                Err(e) => spec_parse_op(message@, commit@) == Err::<OpView, ErrView>(e@),
            },
    {
        let (_subject, body, t) = split_message(message);
        let slug = match t.get("Op") {
            Some(v) => v,
            None => return Err(malformed_err(commit, "missing Op trailer")),
        };
        let id = match t.get("Op-Id") {
            Some(v) => v,
            None => return Err(malformed_err(commit, "missing Op-Id trailer")),
        };
        let lamport_text = match t.get("Lamport") {
            Some(v) => trim_str(v.as_str()),
            None => return Err(malformed_err(commit, "missing Lamport trailer")),
        };
        let lamport = match parse_u64_str(lamport_text.as_str(), u64::MAX) {
            Some(n) => n,
            None => return Err(malformed_err(commit, "Lamport is not a non-negative integer")),
        };
        let actor = match t.get("Actor") {
            Some(v) => v,
            None => return Err(malformed_err(commit, "missing Actor trailer")),
        };
        let format_version: u32 = match t.get("Format-Version") {
            Some(v) => {
                let vt = trim_str(v.as_str());
                match parse_u64_str(vt.as_str(), 0xffff_ffffu64) {
                    Some(n) => n as u32,
                    None => FORMAT_VERSION,
                }
            },
            None => FORMAT_VERSION,
        };
        let kind = match read_kind(slug.as_str(), &body, &t) {
            Ok(k) => k,
            Err(reason) => return Err(GliError::MalformedOp { commit: commit.to_owned(), reason }),
        };
        Ok(
            Op {
                id: id.clone(),
                lamport,
                actor: actor.clone(),
                format_version,
                kind,
                commit: Some(commit.to_owned()),
                author: None,
                timestamp: None,
            },
        )
    }
}


// ---------------------------------------------------------------------------
// Reading back what was written
// ---------------------------------------------------------------------------

/// A value that a trailer line carries unchanged: one line, no surrounding
/// whitespace.
pub open spec fn line_safe(v: Seq<char>) -> bool {
    !contains_char(v, '\n') && is_trimmed(v)
}

/// An optional value that reads back: absent, or a non-empty safe line (an
/// empty one reads back as absent).
pub open spec fn opt_safe(o: Option<Seq<char>>) -> bool {
    match o {
        Some(v) => line_safe(v) && v.len() > 0,
        None => true,
    }
}

/// A label that survives the comma-separated `Labels:` list.
pub open spec fn label_safe(l: Seq<char>) -> bool {
    line_safe(l) && l.len() > 0 && !contains_char(l, ',')
}

/// The payloads whose every field reads back as written.
pub open spec fn kind_safe(k: KindView) -> bool {
    match k {
        KindView::Create { title, description, labels, assignee, priority } => {
            &&& line_safe(title)
            &&& body_round_trips(description)
            &&& forall|i: int| 0 <= i < labels.len() ==> label_safe(#[trigger] labels[i])
            &&& opt_safe(assignee)
            &&& opt_safe(priority)
        },
        KindView::Comment { text } => body_round_trips(text),
        KindView::SetTitle { title } => line_safe(title),
        KindView::SetDescription { description } => body_round_trips(description),
        KindView::SetState { reason, fixed_by, .. } => opt_safe(reason) && opt_safe(fixed_by),
        KindView::SetAssignee { assignee } => opt_safe(assignee),
        KindView::SetPriority { priority } => opt_safe(priority),
        KindView::AddLabel { label } => line_safe(label),
        KindView::RemoveLabel { label } => line_safe(label),
        KindView::SetArchived { .. } => true,
        KindView::AddAssignee { assignee } => line_safe(assignee),
        KindView::RemoveAssignee { assignee } => line_safe(assignee),
        KindView::SetField { key, value } => line_safe(key) && line_safe(value),
        KindView::AddFile { path, note } => line_safe(path) && line_safe(note),
        KindView::SetFileNote { path, note } => line_safe(path) && line_safe(note),
        KindView::RemoveFile { path } => line_safe(path),
    }
}

/// An operation whose commit message reads back as the same operation.
pub open spec fn wire_safe(op: OpView) -> bool {
    kind_safe(op.kind) && line_safe(op.id) && line_safe(op.actor)
}

proof fn lemma_one_line_id(v: Seq<char>)
    requires
        !contains_char(v, '\n'),
    ensures
        one_line(v) == v,
{
    assert forall|i: int| 0 <= i < v.len() implies v[i] != '\n' by {
        if v[i] == '\n' {
            assert(contains_char(v, '\n'));
        }
    }
    assert(one_line(v) =~= v);
}

proof fn lemma_contains_concat(a: Seq<char>, b: Seq<char>, c: char)
    ensures
        contains_char(a + b, c) == (contains_char(a, c) || contains_char(b, c)),
{
    if contains_char(a + b, c) {
        let i = choose|i: int| 0 <= i < (a + b).len() && (a + b)[i] == c;
        if i >= a.len() {
            assert(b[i - a.len()] == c);
        }
    }
    if contains_char(a, c) {
        let i = choose|i: int| 0 <= i < a.len() && a[i] == c;
        assert((a + b)[i] == c);
    }
    if contains_char(b, c) {
        let i = choose|i: int| 0 <= i < b.len() && b[i] == c;
        assert((a + b)[a.len() + i] == c);
    }
}

proof fn lemma_first_line_single(s: Seq<char>)
    ensures
        !contains_char(first_line_of(s), '\n'),
{
    crate::text::lemma_split_pieces(s, '\n');
    lemma_split_nonempty(s, '\n');
    let p = split_on(s, '\n')[0];
    assert(!contains_char(p, '\n'));
    crate::text::lemma_trim_is_subrange(p);
    let t = trim(p);
    if contains_char(t, '\n') {
        let (a, b) = crate::text::trim_bounds(p);
        let i = choose|i: int| 0 <= i < t.len() && t[i] == '\n';
        assert(p[a + i] == '\n');
    }
}

proof fn lemma_subject_single_line(k: KindView)
    requires
        kind_safe(k),
    ensures
        !contains_char(subject_of(k), '\n'),
{
    reveal_strlit("Create: ");
    reveal_strlit("Comment");
    reveal_strlit("Set title: ");
    reveal_strlit("Set description");
    reveal_strlit("Set state: ");
    reveal_strlit("Set assignee: ");
    reveal_strlit("Clear assignee");
    reveal_strlit("Set priority: ");
    reveal_strlit("Clear priority");
    reveal_strlit("Add label: ");
    reveal_strlit("Remove label: ");
    reveal_strlit("Archive");
    reveal_strlit("Restore");
    reveal_strlit("Add assignee: ");
    reveal_strlit("Remove assignee: ");
    reveal_strlit("Set field: ");
    reveal_strlit("Attach file: ");
    reveal_strlit("Set file note: ");
    reveal_strlit("Detach file: ");
    reveal_strlit("open");
    reveal_strlit("closed");
    match k {
        KindView::Create { title, .. } => {
            lemma_first_line_single(title);
            lemma_contains_concat("Create: "@, first_line_of(title), '\n');
        },
        KindView::SetTitle { title } => {
            lemma_first_line_single(title);
            lemma_contains_concat("Set title: "@, first_line_of(title), '\n');
        },
        KindView::SetState { state, .. } => {
            lemma_contains_concat("Set state: "@, state_str(state), '\n');
        },
        KindView::SetAssignee { assignee } => {
            if let Some(a) = assignee {
                lemma_contains_concat("Set assignee: "@, a, '\n');
            }
        },
        KindView::SetPriority { priority } => {
            if let Some(p) = priority {
                lemma_contains_concat("Set priority: "@, p, '\n');
            }
        },
        KindView::AddLabel { label } => lemma_contains_concat("Add label: "@, label, '\n'),
        KindView::RemoveLabel { label } => lemma_contains_concat("Remove label: "@, label, '\n'),
        KindView::AddAssignee { assignee } => lemma_contains_concat(
            "Add assignee: "@,
            assignee,
            '\n',
        ),
        KindView::RemoveAssignee { assignee } => lemma_contains_concat(
            "Remove assignee: "@,
            assignee,
            '\n',
        ),
        KindView::SetField { key, .. } => lemma_contains_concat("Set field: "@, key, '\n'),
        KindView::AddFile { path, .. } => lemma_contains_concat("Attach file: "@, path, '\n'),
        KindView::SetFileNote { path, .. } => lemma_contains_concat(
            "Set file note: "@,
            path,
            '\n',
        ),
        KindView::RemoveFile { path } => lemma_contains_concat("Detach file: "@, path, '\n'),
        _ => {},
    }
}

proof fn lemma_push_safe(ps: Seq<(Seq<char>, Seq<char>)>, k: Seq<char>, v: Seq<char>)
    requires
        block_round_trips(ps),
        valid_key(k),
        line_safe(v),
    ensures
        block_round_trips(ps.push(kv(k, v))),
{
    lemma_one_line_id(v);
    let qs = ps.push(kv(k, v));
    assert forall|i: int| 0 <= i < qs.len() implies {
        &&& valid_key((#[trigger] qs[i]).0)
        &&& !contains_char(qs[i].1, '\n')
        &&& is_trimmed(qs[i].1)
    } by {
        if i < ps.len() {
            assert(qs[i] == ps[i]);
        }
    }
}

proof fn lemma_push_opt_safe(ps: Seq<(Seq<char>, Seq<char>)>, k: Seq<char>, o: Option<Seq<char>>)
    requires
        block_round_trips(ps),
        valid_key(k),
        o matches Some(v) ==> line_safe(v),
    ensures
        block_round_trips(push_opt(ps, k, o)),
{
    if let Some(v) = o {
        lemma_push_safe(ps, k, v);
    }
}

proof fn lemma_dec_safe(n: nat)
    ensures
        line_safe(dec(n)),
        dec(n).len() > 0,
{
    crate::text::lemma_dec_digits(n);
    let d = dec(n);
    assert(is_ascii_digit(d[0]));
    assert(is_ascii_digit(d[d.len() - 1]));
    if contains_char(d, '\n') {
        let i = choose|i: int| 0 <= i < d.len() && d[i] == '\n';
        assert(is_ascii_digit(d[i]));
    }
}

/// The literal keys and values that the writer uses are valid, single-line
/// and trimmed.
proof fn lemma_literals()
    ensures
        valid_key("Title"@),
        valid_key("Labels"@),
        valid_key("Assignee"@),
        valid_key("Priority"@),
        valid_key("State"@),
        valid_key("Reason"@),
        valid_key("Fixed-By"@),
        valid_key("Label"@),
        valid_key("Archived"@),
        valid_key("Field"@),
        valid_key("Value"@),
        valid_key("Path"@),
        valid_key("Note"@),
        valid_key("Op"@),
        valid_key("Op-Id"@),
        valid_key("Lamport"@),
        valid_key("Actor"@),
        valid_key("Format-Version"@),
        line_safe("true"@),
        line_safe("false"@),
        line_safe("open"@),
        line_safe("closed"@),
        line_safe(Seq::<char>::empty()),
{
    reveal_strlit("Title");
    reveal_strlit("Labels");
    reveal_strlit("Assignee");
    reveal_strlit("Priority");
    reveal_strlit("State");
    reveal_strlit("Reason");
    reveal_strlit("Fixed-By");
    reveal_strlit("Label");
    reveal_strlit("Archived");
    reveal_strlit("Field");
    reveal_strlit("Value");
    reveal_strlit("Path");
    reveal_strlit("Note");
    reveal_strlit("Op");
    reveal_strlit("Op-Id");
    reveal_strlit("Lamport");
    reveal_strlit("Actor");
    reveal_strlit("Format-Version");
    reveal_strlit("true");
    reveal_strlit("false");
    reveal_strlit("open");
    reveal_strlit("closed");
}

proof fn lemma_slug_safe(k: KindView)
    ensures
        line_safe(slug_of(k)),
{
    reveal_strlit("create");
    reveal_strlit("comment");
    reveal_strlit("set-title");
    reveal_strlit("set-description");
    reveal_strlit("set-state");
    reveal_strlit("set-assignee");
    reveal_strlit("set-priority");
    reveal_strlit("add-label");
    reveal_strlit("remove-label");
    reveal_strlit("set-archived");
    reveal_strlit("add-assignee");
    reveal_strlit("remove-assignee");
    reveal_strlit("set-field");
    reveal_strlit("add-file");
    reveal_strlit("set-file-note");
    reveal_strlit("remove-file");
}

/// A list of safe labels, joined with `", "`, is one trimmed line that
/// splits back into the same labels.
proof fn lemma_join_labels(ls: Seq<Seq<char>>)
    requires
        ls.len() >= 1,
        forall|i: int| 0 <= i < ls.len() ==> label_safe(#[trigger] ls[i]),
    ensures
        line_safe(join_comma(ls)),
        join_comma(ls).len() > 0,
        join_comma(ls)[0] == ls[0][0],
        join_comma(ls).last() == ls.last().last(),
        label_list(join_comma(ls)) == ls,
    decreases ls.len(),
{
    if ls.len() == 1 {
        let l = ls[0];
        assert(label_safe(l));
        crate::text::lemma_split_free(l, ',');
        crate::text::lemma_trim_of_trimmed(l);
        assert(seq![l].drop_last() =~= Seq::<Seq<char>>::empty());
        assert(trimmed_pieces(Seq::<Seq<char>>::empty()) == Seq::<Seq<char>>::empty());
        assert(Seq::<Seq<char>>::empty().push(l) =~= seq![l]);
        assert(trimmed_pieces(seq![l]) == seq![l]);
        assert(ls =~= seq![l]);
    } else {
        reveal_strlit(", ");
        let front = ls.drop_last();
        assert forall|i: int| 0 <= i < front.len() implies label_safe(#[trigger] front[i]) by {
            assert(front[i] == ls[i]);
        }
        lemma_join_labels(front);
        let x = join_comma(front);
        let last = ls.last();
        assert(label_safe(ls[ls.len() - 1]));
        let y = seq![' '] + last;
        assert(join_comma(ls) =~= x + seq![','] + y);
        crate::text::lemma_split_append(x, y, ',');
        lemma_contains_concat(seq![' '], last, ',');
        lemma_contains_concat(seq![' '], last, '\n');
        assert(!contains_char(seq![' '], ','));
        assert(!contains_char(seq![' '], '\n'));
        crate::text::lemma_split_free(y, ',');
        let pieces = split_on(join_comma(ls), ',');
        assert(pieces == split_on(x, ',').push(y));
        assert(pieces.drop_last() =~= split_on(x, ','));
        assert(is_ws(' '));
        crate::text::lemma_trim_ws_prefix(seq![' '], last);
        assert(trim(y) == last);
        assert(trimmed_pieces(pieces) == label_list(x).push(last));
        assert(ls =~= front.push(last));
        lemma_contains_concat(x + seq![','], y, '\n');
        lemma_contains_concat(x, seq![','], '\n');
        assert(!contains_char(seq![','], '\n'));
        let j = join_comma(ls);
        assert(j[0] == x[0]);
        assert(j.last() == last.last());
        assert(front[0] == ls[0]);
    }
}

proof fn lemma_kind_block_safe(k: KindView)
    requires
        kind_safe(k),
    ensures
        block_round_trips(kind_trailers(k)),
{
    lemma_literals();
    let e = Seq::<(Seq<char>, Seq<char>)>::empty();
    assert(block_round_trips(e));
    match k {
        KindView::Create { title, labels, assignee, priority, .. } => {
            lemma_push_safe(e, "Title"@, title);
            let a = e.push(kv("Title"@, title));
            if labels.len() > 0 {
                lemma_join_labels(labels);
            }
            lemma_push_opt_safe(a, "Labels"@, labels_value(labels));
            let b = push_opt(a, "Labels"@, labels_value(labels));
            lemma_push_opt_safe(b, "Assignee"@, assignee);
            let c = push_opt(b, "Assignee"@, assignee);
            lemma_push_opt_safe(c, "Priority"@, priority);
        },
        KindView::SetTitle { title } => lemma_push_safe(e, "Title"@, title),
        KindView::SetState { state, reason, fixed_by } => {
            lemma_push_safe(e, "State"@, state_str(state));
            let a = e.push(kv("State"@, state_str(state)));
            lemma_push_opt_safe(a, "Reason"@, reason);
            lemma_push_opt_safe(push_opt(a, "Reason"@, reason), "Fixed-By"@, fixed_by);
        },
        KindView::SetAssignee { assignee } => lemma_push_safe(e, "Assignee"@, or_empty(assignee)),
        KindView::SetPriority { priority } => lemma_push_safe(e, "Priority"@, or_empty(priority)),
        KindView::AddLabel { label } => lemma_push_safe(e, "Label"@, label),
        KindView::RemoveLabel { label } => lemma_push_safe(e, "Label"@, label),
        KindView::SetArchived { archived } => lemma_push_safe(
            e,
            "Archived"@,
            if archived {
                "true"@
            } else {
                "false"@
            },
        ),
        KindView::AddAssignee { assignee } => lemma_push_safe(e, "Assignee"@, assignee),
        KindView::RemoveAssignee { assignee } => lemma_push_safe(e, "Assignee"@, assignee),
        KindView::SetField { key, value } => {
            lemma_push_safe(e, "Field"@, key);
            lemma_push_safe(e.push(kv("Field"@, key)), "Value"@, value);
        },
        KindView::AddFile { path, note } => {
            lemma_push_safe(e, "Path"@, path);
            lemma_push_safe(e.push(kv("Path"@, path)), "Note"@, note);
        },
        KindView::SetFileNote { path, note } => {
            lemma_push_safe(e, "Path"@, path);
            lemma_push_safe(e.push(kv("Path"@, path)), "Note"@, note);
        },
        KindView::RemoveFile { path } => lemma_push_safe(e, "Path"@, path),
        _ => {},
    }
}

proof fn lemma_op_block_safe(op: OpView)
    requires
        wire_safe(op),
    ensures
        block_round_trips(op_trailers(op)),
        op_trailers(op).len() >= 1,
{
    lemma_literals();
    lemma_kind_block_safe(op.kind);
    lemma_slug_safe(op.kind);
    lemma_dec_safe(op.lamport as nat);
    lemma_dec_safe(op.format_version as nat);
    let a = kind_trailers(op.kind);
    lemma_push_safe(a, "Op"@, slug_of(op.kind));
    let b = a.push(kv("Op"@, slug_of(op.kind)));
    lemma_push_safe(b, "Op-Id"@, op.id);
    let c = b.push(kv("Op-Id"@, op.id));
    lemma_push_safe(c, "Lamport"@, dec(op.lamport as nat));
    let d = c.push(kv("Lamport"@, dec(op.lamport as nat)));
    lemma_push_safe(d, "Actor"@, op.actor);
    let f = d.push(kv("Actor"@, op.actor));
    lemma_push_safe(f, "Format-Version"@, dec(op.format_version as nat));
}

proof fn lemma_pm_push(ps: Seq<(Seq<char>, Seq<char>)>, k: Seq<char>, v: Seq<char>)
    ensures
        pairs_map(ps.push((k, v))) == pairs_map(ps).insert(k, v),
{
    assert(ps.push((k, v)).drop_last() =~= ps);
}

proof fn lemma_pm_push_opt(ps: Seq<(Seq<char>, Seq<char>)>, k: Seq<char>, o: Option<Seq<char>>)
    ensures
        pairs_map(push_opt(ps, k, o)) == match o {
            Some(v) => pairs_map(ps).insert(k, one_line(v)),
            None => pairs_map(ps),
        },
{
    if let Some(v) = o {
        lemma_pm_push(ps, k, one_line(v));
    }
}

proof fn lemma_state_reads_back(st: State)
    ensures
        spec_state_parse(state_str(st)) == Some(st),
{
    lemma_literals();
    reveal_strlit("open");
    reveal_strlit("closed");
    crate::text::lemma_trim_of_trimmed("open"@);
    crate::text::lemma_trim_of_trimmed("closed"@);
    assert(crate::text::lower_seq("open"@) =~= "open"@);
    assert(crate::text::lower_seq("closed"@) =~= "closed"@);
}

/// Enough of each `Op` slug to tell any two apart.
proof fn lemma_slug_facts()
    ensures
        "create"@.len() == 6,
        "create"@[0] == 'c',
        "create"@[4] == 't',
        "create"@[5] == 'e',
        "comment"@.len() == 7,
        "comment"@[0] == 'c',
        "comment"@[4] == 'e',
        "comment"@[5] == 'n',
        "set-title"@.len() == 9,
        "set-title"@[0] == 's',
        "set-title"@[4] == 't',
        "set-title"@[5] == 'i',
        "set-description"@.len() == 15,
        "set-description"@[0] == 's',
        "set-description"@[4] == 'd',
        "set-description"@[5] == 'e',
        "set-state"@.len() == 9,
        "set-state"@[0] == 's',
        "set-state"@[4] == 's',
        "set-state"@[5] == 't',
        "set-assignee"@.len() == 12,
        "set-assignee"@[0] == 's',
        "set-assignee"@[4] == 'a',
        "set-assignee"@[5] == 's',
        "set-priority"@.len() == 12,
        "set-priority"@[0] == 's',
        "set-priority"@[4] == 'p',
        "set-priority"@[5] == 'r',
        "add-label"@.len() == 9,
        "add-label"@[0] == 'a',
        "add-label"@[4] == 'l',
        "add-label"@[5] == 'a',
        "remove-label"@.len() == 12,
        "remove-label"@[0] == 'r',
        "remove-label"@[4] == 'v',
        "remove-label"@[5] == 'e',
        "set-archived"@.len() == 12,
        "set-archived"@[0] == 's',
        "set-archived"@[4] == 'a',
        "set-archived"@[5] == 'r',
        "add-assignee"@.len() == 12,
        "add-assignee"@[0] == 'a',
        "add-assignee"@[4] == 'a',
        "add-assignee"@[5] == 's',
        "remove-assignee"@.len() == 15,
        "remove-assignee"@[0] == 'r',
        "remove-assignee"@[4] == 'v',
        "remove-assignee"@[5] == 'e',
        "set-field"@.len() == 9,
        "set-field"@[0] == 's',
        "set-field"@[4] == 'f',
        "set-field"@[5] == 'i',
        "add-file"@.len() == 8,
        "add-file"@[0] == 'a',
        "add-file"@[4] == 'f',
        "add-file"@[5] == 'i',
        "set-file-note"@.len() == 13,
        "set-file-note"@[0] == 's',
        "set-file-note"@[4] == 'f',
        "set-file-note"@[5] == 'i',
        "remove-file"@.len() == 11,
        "remove-file"@[0] == 'r',
        "remove-file"@[4] == 'v',
        "remove-file"@[5] == 'e',
{
    reveal_strlit("create");
    reveal_strlit("comment");
    reveal_strlit("set-title");
    reveal_strlit("set-description");
    reveal_strlit("set-state");
    reveal_strlit("set-assignee");
    reveal_strlit("set-priority");
    reveal_strlit("add-label");
    reveal_strlit("remove-label");
    reveal_strlit("set-archived");
    reveal_strlit("add-assignee");
    reveal_strlit("remove-assignee");
    reveal_strlit("set-field");
    reveal_strlit("add-file");
    reveal_strlit("set-file-note");
    reveal_strlit("remove-file");
}

/// Enough of each trailer key to tell any two apart.
proof fn lemma_key_facts()
    ensures
        "Title"@.len() == 5,
        "Title"@[0] == 'T',
        "Title"@[1] == 'i',
        "Labels"@.len() == 6,
        "Labels"@[0] == 'L',
        "Labels"@[1] == 'a',
        "Assignee"@.len() == 8,
        "Assignee"@[0] == 'A',
        "Assignee"@[1] == 's',
        "Priority"@.len() == 8,
        "Priority"@[0] == 'P',
        "Priority"@[1] == 'r',
        "State"@.len() == 5,
        "State"@[0] == 'S',
        "State"@[1] == 't',
        "Reason"@.len() == 6,
        "Reason"@[0] == 'R',
        "Reason"@[1] == 'e',
        "Fixed-By"@.len() == 8,
        "Fixed-By"@[0] == 'F',
        "Fixed-By"@[1] == 'i',
        "Label"@.len() == 5,
        "Label"@[0] == 'L',
        "Label"@[1] == 'a',
        "Archived"@.len() == 8,
        "Archived"@[0] == 'A',
        "Archived"@[1] == 'r',
        "Field"@.len() == 5,
        "Field"@[0] == 'F',
        "Field"@[1] == 'i',
        "Value"@.len() == 5,
        "Value"@[0] == 'V',
        "Value"@[1] == 'a',
        "Path"@.len() == 4,
        "Path"@[0] == 'P',
        "Path"@[1] == 'a',
        "Note"@.len() == 4,
        "Note"@[0] == 'N',
        "Note"@[1] == 'o',
        "Op"@.len() == 2,
        "Op"@[0] == 'O',
        "Op"@[1] == 'p',
        "Op-Id"@.len() == 5,
        "Op-Id"@[0] == 'O',
        "Op-Id"@[1] == 'p',
        "Lamport"@.len() == 7,
        "Lamport"@[0] == 'L',
        "Lamport"@[1] == 'a',
        "Actor"@.len() == 5,
        "Actor"@[0] == 'A',
        "Actor"@[1] == 'c',
        "Format-Version"@.len() == 14,
        "Format-Version"@[0] == 'F',
        "Format-Version"@[1] == 'o',
{
    reveal_strlit("Title");
    reveal_strlit("Labels");
    reveal_strlit("Assignee");
    reveal_strlit("Priority");
    reveal_strlit("State");
    reveal_strlit("Reason");
    reveal_strlit("Fixed-By");
    reveal_strlit("Label");
    reveal_strlit("Archived");
    reveal_strlit("Field");
    reveal_strlit("Value");
    reveal_strlit("Path");
    reveal_strlit("Note");
    reveal_strlit("Op");
    reveal_strlit("Op-Id");
    reveal_strlit("Lamport");
    reveal_strlit("Actor");
    reveal_strlit("Format-Version");
}

/// The standard metadata keys.
pub open spec fn meta_key(k: Seq<char>) -> bool {
    k == "Op"@ || k == "Op-Id"@ || k == "Lamport"@ || k == "Actor"@ || k == "Format-Version"@
}

proof fn lemma_create_reads_back(k: KindView, body: Seq<char>, t: Map<Seq<char>, Seq<char>>)
    requires
        k is Create,
        kind_safe(k),
        body == or_empty(body_of(k)),
        forall|key: Seq<char>|
            !meta_key(key) ==> #[trigger] tget(t, key) == tget(pairs_map(kind_trailers(k)), key),
    ensures
        parse_kind(slug_of(k), body, t) == Ok::<KindView, Seq<char>>(k),
{
    lemma_literals();
    lemma_slug_facts();
    lemma_key_facts();
    reveal_strlit("true");
    reveal_strlit("false");
    let e = Seq::<(Seq<char>, Seq<char>)>::empty();
    assert(pairs_map(e) == Map::<Seq<char>, Seq<char>>::empty());
    if let KindView::Create { title, description, labels, assignee, priority } = k {
                lemma_one_line_id(title);
                lemma_pm_push(e, "Title"@, title);
                let a = e.push(kv("Title"@, title));
                let lv = labels_value(labels);
                lemma_pm_push_opt(a, "Labels"@, lv);
                let b = push_opt(a, "Labels"@, lv);
                lemma_pm_push_opt(b, "Assignee"@, assignee);
                let c = push_opt(b, "Assignee"@, assignee);
                lemma_pm_push_opt(c, "Priority"@, priority);
                if labels.len() > 0 {
                    lemma_join_labels(labels);
                    lemma_one_line_id(join_comma(labels));
                } else {
                    assert(labels =~= Seq::<Seq<char>>::empty());
                }
                if let Some(v) = assignee {
                    lemma_one_line_id(v);
                }
                if let Some(v) = priority {
                    lemma_one_line_id(v);
                }
                if description.len() == 0 {
                    assert(description =~= Seq::<char>::empty());
                }
                assert(!meta_key("Title"@));
                assert(!meta_key("Labels"@));
                assert(!meta_key("Assignee"@));
                assert(!meta_key("Priority"@));
                assert(tget(t, "Title"@) == Some(title));
                let got_labels = match tget(t, "Labels"@) {
                    Some(v) => label_list(v),
                    None => Seq::empty(),
                };
                assert(got_labels == labels);
                assert(nonempty(tget(t, "Assignee"@)) == assignee);
                assert(nonempty(tget(t, "Priority"@)) == priority);
                assert(body == description);
                assert(or_empty(tget(t, "Title"@)) == title);
                let got = KindView::Create {
                    title: or_empty(tget(t, "Title"@)),
                    description: body,
                    labels: got_labels,
                    assignee: nonempty(tget(t, "Assignee"@)),
                    priority: nonempty(tget(t, "Priority"@)),
                };
                assert(got == k);
                assert(parse_kind(slug_of(k), body, t) == Ok::<KindView, Seq<char>>(got));

    }
}

#[verifier::spinoff_prover]
#[verifier::rlimit(60)]
proof fn lemma_kind_reads_back(k: KindView, body: Seq<char>, t: Map<Seq<char>, Seq<char>>)
    requires
        kind_safe(k),
        body == or_empty(body_of(k)),
        forall|key: Seq<char>|
            !meta_key(key) ==> #[trigger] tget(t, key) == tget(pairs_map(kind_trailers(k)), key),
    ensures
        parse_kind(slug_of(k), body, t) == Ok::<KindView, Seq<char>>(k),
{
    lemma_literals();
    lemma_slug_facts();
    lemma_key_facts();
    reveal_strlit("true");
    reveal_strlit("false");
    let e = Seq::<(Seq<char>, Seq<char>)>::empty();
    assert(pairs_map(e) == Map::<Seq<char>, Seq<char>>::empty());
    match k {
        KindView::Create { .. } => {
            lemma_create_reads_back(k, body, t);
            assert(parse_kind(slug_of(k), body, t) == Ok::<KindView, Seq<char>>(k));
        },
        KindView::SetTitle { title } => {
            lemma_one_line_id(title);
            lemma_pm_push(e, "Title"@, title);
            assert(!meta_key("Title"@));
            assert(tget(t, "Title"@) == Some(title));
        },
        KindView::SetState { state, reason, fixed_by } => {
            lemma_state_reads_back(state);
            lemma_one_line_id(state_str(state));
            lemma_pm_push(e, "State"@, state_str(state));
            let a = e.push(kv("State"@, state_str(state)));
            lemma_pm_push_opt(a, "Reason"@, reason);
            let b = push_opt(a, "Reason"@, reason);
            lemma_pm_push_opt(b, "Fixed-By"@, fixed_by);
            if let Some(v) = reason {
                lemma_one_line_id(v);
            }
            if let Some(v) = fixed_by {
                lemma_one_line_id(v);
            }
            assert(!meta_key("State"@));
            assert(!meta_key("Reason"@));
            assert(!meta_key("Fixed-By"@));
            assert(tget(t, "State"@) == Some(state_str(state)));
        },
        KindView::SetAssignee { assignee } => {
            lemma_one_line_id(or_empty(assignee));
            lemma_pm_push(e, "Assignee"@, or_empty(assignee));
            assert(!meta_key("Assignee"@));
            assert(tget(t, "Assignee"@) == Some(or_empty(assignee)));
        },
        KindView::SetPriority { priority } => {
            lemma_one_line_id(or_empty(priority));
            lemma_pm_push(e, "Priority"@, or_empty(priority));
            assert(!meta_key("Priority"@));
            assert(tget(t, "Priority"@) == Some(or_empty(priority)));
        },
        KindView::AddLabel { label } => {
            lemma_one_line_id(label);
            lemma_pm_push(e, "Label"@, label);
            assert(!meta_key("Label"@));
            assert(tget(t, "Label"@) == Some(label));
        },
        KindView::RemoveLabel { label } => {
            lemma_one_line_id(label);
            lemma_pm_push(e, "Label"@, label);
            assert(!meta_key("Label"@));
            assert(tget(t, "Label"@) == Some(label));
        },
        KindView::SetArchived { archived } => {
            let v = if archived {
                "true"@
            } else {
                "false"@
            };
            lemma_one_line_id(v);
            lemma_pm_push(e, "Archived"@, v);
            crate::text::lemma_trim_of_trimmed(v);
            assert(!meta_key("Archived"@));
            assert(tget(t, "Archived"@) == Some(v));
        },
        KindView::AddAssignee { assignee } => {
            lemma_one_line_id(assignee);
            lemma_pm_push(e, "Assignee"@, assignee);
            assert(!meta_key("Assignee"@));
            assert(tget(t, "Assignee"@) == Some(assignee));
        },
        KindView::RemoveAssignee { assignee } => {
            lemma_one_line_id(assignee);
            lemma_pm_push(e, "Assignee"@, assignee);
            assert(!meta_key("Assignee"@));
            assert(tget(t, "Assignee"@) == Some(assignee));
        },
        KindView::SetField { key, value } => {
            lemma_one_line_id(key);
            lemma_one_line_id(value);
            lemma_pm_push(e, "Field"@, key);
            lemma_pm_push(e.push(kv("Field"@, key)), "Value"@, value);
            assert(!meta_key("Field"@));
            assert(!meta_key("Value"@));
            assert(tget(t, "Field"@) == Some(key));
            assert(tget(t, "Value"@) == Some(value));
        },
        KindView::AddFile { path, note } => {
            lemma_one_line_id(path);
            lemma_one_line_id(note);
            lemma_pm_push(e, "Path"@, path);
            lemma_pm_push(e.push(kv("Path"@, path)), "Note"@, note);
            assert(!meta_key("Path"@));
            assert(!meta_key("Note"@));
            assert(tget(t, "Path"@) == Some(path));
            assert(tget(t, "Note"@) == Some(note));
        },
        KindView::SetFileNote { path, note } => {
            lemma_one_line_id(path);
            lemma_one_line_id(note);
            lemma_pm_push(e, "Path"@, path);
            lemma_pm_push(e.push(kv("Path"@, path)), "Note"@, note);
            assert(!meta_key("Path"@));
            assert(!meta_key("Note"@));
            assert(tget(t, "Path"@) == Some(path));
            assert(tget(t, "Note"@) == Some(note));
        },
        KindView::RemoveFile { path } => {
            lemma_one_line_id(path);
            lemma_pm_push(e, "Path"@, path);
            assert(!meta_key("Path"@));
            assert(tget(t, "Path"@) == Some(path));
        },
        KindView::Comment { text } => {
            assert(body == text);

        },
        KindView::SetDescription { description } => {
            assert(body == description);
        },
    }
}

/// The operation that reading gives back: the same one, with `commit` as its
/// provenance and no author or timestamp.
pub open spec fn as_read(op: OpView, commit: Seq<char>) -> OpView {
    OpView { commit: Some(commit), author: None, timestamp: None, ..op }
}

/// Law: writing an operation as a commit message and reading that message
/// back gives the same operation, with the commit recorded as its provenance,
/// for every operation whose fields a trailer line or the body carries
/// unchanged (single-line trimmed trailer values, non-empty optional values,
/// comma-free labels, bodies without blank first or last lines).
pub proof fn law_commit_message_round_trip(op: OpView, commit: Seq<char>)
    requires
        wire_safe(op),
    ensures
        spec_parse_op(message_of(op), commit) == Ok::<OpView, ErrView>(as_read(op, commit)),
{
    let k = op.kind;
    lemma_subject_single_line(k);
    lemma_op_block_safe(op);
    assert(body_of(k) matches Some(b) ==> body_round_trips(b));
    let ps = op_trailers(op);
    crate::trailer::lemma_trim_values_id(ps);
    lemma_split_composed(subject_of(k), body_of(k), ps, false);
    let (_s, body, t) = spec_split_message(message_of(op));
    assert(body == or_empty(body_of(k)));
    lemma_literals();
    lemma_key_facts();
    lemma_slug_safe(k);
    lemma_dec_safe(op.lamport as nat);
    lemma_dec_safe(op.format_version as nat);
    lemma_one_line_id(slug_of(k));
    lemma_one_line_id(op.id);
    lemma_one_line_id(op.actor);
    lemma_one_line_id(dec(op.lamport as nat));
    lemma_one_line_id(dec(op.format_version as nat));
    let kt = kind_trailers(k);
    let a = kt.push(kv("Op"@, slug_of(k)));
    let b = a.push(kv("Op-Id"@, op.id));
    let c = b.push(kv("Lamport"@, dec(op.lamport as nat)));
    let d = c.push(kv("Actor"@, op.actor));
    lemma_pm_push(kt, "Op"@, slug_of(k));
    lemma_pm_push(a, "Op-Id"@, op.id);
    lemma_pm_push(b, "Lamport"@, dec(op.lamport as nat));
    lemma_pm_push(c, "Actor"@, op.actor);
    lemma_pm_push(d, "Format-Version"@, dec(op.format_version as nat));
    assert(t == pairs_map(kt).insert("Op"@, slug_of(k)).insert("Op-Id"@, op.id).insert(
        "Lamport"@,
        dec(op.lamport as nat),
    ).insert("Actor"@, op.actor).insert("Format-Version"@, dec(op.format_version as nat)));
    assert(tget(t, "Op"@) == Some(slug_of(k)));
    assert(tget(t, "Op-Id"@) == Some(op.id));
    assert(tget(t, "Lamport"@) == Some(dec(op.lamport as nat)));
    assert(tget(t, "Actor"@) == Some(op.actor));
    assert(tget(t, "Format-Version"@) == Some(dec(op.format_version as nat)));
    crate::text::lemma_trim_of_trimmed(dec(op.lamport as nat));
    crate::text::lemma_trim_of_trimmed(dec(op.format_version as nat));
    crate::text::lemma_parse_dec(op.lamport as nat, u64::MAX as nat);
    crate::text::lemma_parse_dec(op.format_version as nat, u32::MAX as nat);
    assert(version_of(t) == op.format_version);
    assert forall|key: Seq<char>| !meta_key(key) implies #[trigger] tget(t, key) == tget(
        pairs_map(kt),
        key,
    ) by {}
    lemma_kind_reads_back(k, body, t);
}


/// The trailer keys that say which operation a commit records and when.
pub open spec fn op_key(k: Seq<char>) -> bool {
    k == "Op"@ || k == "Op-Id"@ || k == "Lamport"@ || k == "Actor"@
}

/// The trailer keys an operation's payload is read from.
pub open spec fn kind_key(k: Seq<char>) -> bool {
    ||| k == "Title"@
    ||| k == "Labels"@
    ||| k == "Assignee"@
    ||| k == "Priority"@
    ||| k == "State"@
    ||| k == "Reason"@
    ||| k == "Fixed-By"@
    ||| k == "Label"@
    ||| k == "Archived"@
    ||| k == "Field"@
    ||| k == "Value"@
    ||| k == "Path"@
    ||| k == "Note"@
}

/// A payload reads the same from two trailer sets that agree on the payload
/// keys.
pub proof fn lemma_parse_kind_keys(
    slug: Seq<char>,
    body: Seq<char>,
    t1: Map<Seq<char>, Seq<char>>,
    t2: Map<Seq<char>, Seq<char>>,
)
    requires
        forall|k: Seq<char>| #[trigger] kind_key(k) ==> tget(t1, k) == tget(t2, k),
    ensures
        parse_kind(slug, body, t1) == parse_kind(slug, body, t2),
{
    assert(kind_key("Title"@));
    assert(kind_key("Labels"@));
    assert(kind_key("Assignee"@));
    assert(kind_key("Priority"@));
    assert(kind_key("State"@));
    assert(kind_key("Reason"@));
    assert(kind_key("Fixed-By"@));
    assert(kind_key("Label"@));
    assert(kind_key("Archived"@));
    assert(kind_key("Field"@));
    assert(kind_key("Value"@));
    assert(kind_key("Path"@));
    assert(kind_key("Note"@));
}

/// Law: reading an operation ignores trailers it does not know. Two commit
/// messages with the same body whose trailers agree on every key the reader
/// consults read back alike, whatever other trailers either carries.
pub proof fn law_unknown_trailers_ignored(m1: Seq<char>, m2: Seq<char>, commit: Seq<char>)
    requires
        spec_split_message(m1).1 == spec_split_message(m2).1,
        forall|k: Seq<char>|
            op_key(k) || kind_key(k) || k == "Format-Version"@ ==> #[trigger] tget(
                spec_split_message(m1).2,
                k,
            ) == tget(spec_split_message(m2).2, k),
    ensures
        spec_parse_op(m1, commit) == spec_parse_op(m2, commit),
{
    let t1 = spec_split_message(m1).2;
    let t2 = spec_split_message(m2).2;
    assert(tget(t1, "Op"@) == tget(t2, "Op"@));
    assert(tget(t1, "Op-Id"@) == tget(t2, "Op-Id"@));
    assert(tget(t1, "Lamport"@) == tget(t2, "Lamport"@));
    assert(tget(t1, "Actor"@) == tget(t2, "Actor"@));
    assert(tget(t1, "Format-Version"@) == tget(t2, "Format-Version"@));
    assert(version_of(t1) == version_of(t2));
    assert forall|k: Seq<char>| #[trigger] kind_key(k) implies tget(t1, k) == tget(t2, k) by {
        assert(op_key(k) || kind_key(k) || k == "Format-Version"@);
    }
    match tget(t1, "Op"@) {
        Some(slug) => lemma_parse_kind_keys(slug, spec_split_message(m1).1, t1, t2),
        None => {},
    }
}

/// Law: no format version is refused. Two commit messages that differ only
/// in their `Format-Version:` trailer (and in trailers the reader does not
/// know) are both read or both refused; read, they give the same operation
/// but for the version it records, and refused, the same error.
pub proof fn law_any_format_version_read(m1: Seq<char>, m2: Seq<char>, commit: Seq<char>)
    requires
        spec_split_message(m1).1 == spec_split_message(m2).1,
        forall|k: Seq<char>|
            op_key(k) || kind_key(k) ==> #[trigger] tget(spec_split_message(m1).2, k) == tget(
                spec_split_message(m2).2,
                k,
            ),
    ensures
        (spec_parse_op(m1, commit) is Ok) == (spec_parse_op(m2, commit) is Ok),
        spec_parse_op(m1, commit) is Err ==> spec_parse_op(m1, commit) == spec_parse_op(m2, commit),
        spec_parse_op(m1, commit) is Ok ==> spec_parse_op(m2, commit)->Ok_0 == (OpView {
            format_version: spec_parse_op(m2, commit)->Ok_0.format_version,
            ..spec_parse_op(m1, commit)->Ok_0
        }),
{
    let t1 = spec_split_message(m1).2;
    let t2 = spec_split_message(m2).2;
    assert(tget(t1, "Op"@) == tget(t2, "Op"@));
    assert(tget(t1, "Op-Id"@) == tget(t2, "Op-Id"@));
    assert(tget(t1, "Lamport"@) == tget(t2, "Lamport"@));
    assert(tget(t1, "Actor"@) == tget(t2, "Actor"@));
    assert forall|k: Seq<char>| #[trigger] kind_key(k) implies tget(t1, k) == tget(t2, k) by {
        assert(op_key(k) || kind_key(k));
    }
    match tget(t1, "Op"@) {
        Some(slug) => lemma_parse_kind_keys(slug, spec_split_message(m1).1, t1, t2),
        None => {},
    }
}


/// Law: a message's `Format-Version:` trailer, when missing or not a number,
/// reads as the current format version; it never makes reading fail.
pub proof fn law_unreadable_format_version_is_current(m: Seq<char>, commit: Seq<char>)
    requires
        match tget(spec_split_message(m).2, "Format-Version"@) {
            None => true,
            Some(v) => parse_unsigned(trim(v), u32::MAX as nat) is None,
        },
    ensures
        spec_parse_op(m, commit) is Ok ==> spec_parse_op(m, commit)->Ok_0.format_version
            == FORMAT_VERSION,
{
}

/// Law: reading an operation ignores a trailer it does not know. Adding one
/// more trailer line, whose key the reader does not consult, at the end of
/// the trailer block of a message that reads as an operation (before any
/// trailing newlines) reads back the same operation.
pub proof fn law_added_unknown_trailer_ignored(
    m: Seq<char>,
    commit: Seq<char>,
    k: Seq<char>,
    v: Seq<char>,
)
    requires
        spec_parse_op(m, commit) is Ok,
        valid_key(k),
        !contains_char(v, '\n'),
        !op_key(k),
        !kind_key(k),
        k != "Format-Version"@,
    ensures
        spec_parse_op(crate::trailer::with_line(m, crate::trailer::render_line(k, v)), commit)
            == spec_parse_op(m, commit),
{
    let t = spec_split_message(m).2;
    assert(t.contains_key("Op"@));
    assert(t != Map::<Seq<char>, Seq<char>>::empty()) by {
        if t == Map::<Seq<char>, Seq<char>>::empty() {
            assert(!Map::<Seq<char>, Seq<char>>::empty().contains_key("Op"@));
        }
    }
    crate::trailer::lemma_split_with_trailer(m, k, v);
    let m2 = crate::trailer::with_line(m, crate::trailer::render_line(k, v));
    let t2 = spec_split_message(m2).2;
    assert forall|key: Seq<char>|
        op_key(key) || kind_key(key) || key == "Format-Version"@ implies #[trigger] tget(t, key)
        == tget(t2, key) by {
        assert(key != k);
    }
    law_unknown_trailers_ignored(m, m2, commit);
}

} // verus!
