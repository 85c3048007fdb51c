//! Write operations: turning intents into op commits on the issue chains.
//!
//! Every write reads the current chain to compute the next Lamport clock,
//! mints a stable op-id, serializes the op to a commit message, commits it
//! onto the chain tip, and moves the ref with a compare-and-swap.
use crate::error::{ErrView, GliError};
use crate::git::{Author, GitBackend, RawCommitView};
use crate::id::{actor_slug, is_lower_hex, is_slug, new_uuid, spec_actor_slug};
use crate::model::{
    label_problem, max_clock, max_lamport, next_lamport, ops_view, validate_label, KindView, Op, OpKind,
    OpView, FORMAT_VERSION,
};
use crate::wire::message_of;
use vstd::prelude::*;

verus! {

/// Soft cap on any single free-form field (title, description, comment):
/// about 1 MB of UTF-8.
pub const MAX_FIELD_BYTES: usize = 1024 * 1024;

/// How many times `append` re-reads and retries when the ref moves under it.
pub const MAX_APPEND_ATTEMPTS: u32 = 5;

/// The UTF-8 length of a text (as `str::len` reports it in a `usize`).
pub open spec fn byte_len(s: Seq<char>) -> nat {
    (vstd::utf8::encode_utf8(s).len() as usize) as nat
}

/// Why a free-form field is refused, if it is: more than
/// [`MAX_FIELD_BYTES`] bytes.
pub open spec fn size_problem(field: Seq<char>, value: Seq<char>) -> Option<ErrView> {
    if byte_len(value) > MAX_FIELD_BYTES {
        Some(ErrView::FieldTooLarge { field, size: byte_len(value), limit: MAX_FIELD_BYTES as nat })
    } else {
        None
    }
}

/// Refuses an oversized free-form field.
pub fn check_size(field: &str, value: &str) -> (r: Result<(), GliError>)
    ensures
        match size_problem(field@, value@) {
            None => r is Ok,
            Some(e) => r matches Err(x) && x@ == e,
        },
{
    let n = value.len();
    if n > MAX_FIELD_BYTES {
        return Err(GliError::FieldTooLarge { field: field.to_owned(), size: n, limit: MAX_FIELD_BYTES });
    }
    Ok(())
}

/// The first refused label, if any.
pub open spec fn labels_problem(labels: Seq<Seq<char>>) -> Option<ErrView>
    decreases labels.len(),
{
    if labels.len() == 0 {
        None
    } else {
        match labels_problem(labels.drop_last()) {
            Some(e) => Some(e),
            None => match label_problem(labels.last()) {
                Some(reason) => Some(ErrView::InvalidLabel { label: labels.last(), reason }),
                None => None,
            },
        }
    }
}

pub open spec fn label_refusal(label: Seq<char>) -> Option<ErrView> {
    match label_problem(label) {
        Some(reason) => Some(ErrView::InvalidLabel { label, reason }),
        None => None,
    }
}

/// Why an operation's content is refused before it is written, if it is.
pub open spec fn op_problem(k: KindView) -> Option<ErrView> {
    match k {
        KindView::Create { title, description, labels, .. } => match size_problem("title"@, title) {
            Some(e) => Some(e),
            None => match size_problem("description"@, description) {
                Some(e) => Some(e),
                None => labels_problem(labels),
            },
        },
        KindView::Comment { text } => size_problem("comment"@, text),
        KindView::SetTitle { title } => size_problem("title"@, title),
        KindView::SetDescription { description } => size_problem("description"@, description),
        KindView::AddLabel { label } => label_refusal(label),
        KindView::SetField { value, .. } => size_problem("field value"@, value),
        KindView::AddFile { note, .. } => size_problem("file note"@, note),
        KindView::SetFileNote { note, .. } => size_problem("file note"@, note),
        _ => None,
    }
}

fn check_labels(labels: &Vec<String>) -> (r: Result<(), GliError>)
    ensures
        match labels_problem(labels.deep_view()) {
            None => r is Ok,
            Some(e) => r matches Err(x) && x@ == e,
        },
{
    let n = labels.len();
    let mut i: usize = 0;
    while i < n
        invariant
            n == labels@.len(),
            i <= n,
            labels_problem(labels.deep_view().take(i as int)) is None,
        decreases n - i,
    {
        proof {
            let t = labels.deep_view().take(i + 1);
            assert(t.drop_last() =~= labels.deep_view().take(i as int));
            assert(t.last() == labels@[i as int]@);
        }
        match validate_label(labels[i].as_str()) {
            Ok(()) => {},
            Err(e) => {
                proof {
                    lemma_labels_problem_prefix(labels.deep_view(), i as int + 1);
                }
                return Err(e);
            },
        }
        i = i + 1;
    }
    assert(labels.deep_view().take(n as int) =~= labels.deep_view());
    Ok(())
}

proof fn lemma_labels_problem_prefix(ls: Seq<Seq<char>>, k: int)
    requires
        0 <= k <= ls.len(),
        labels_problem(ls.take(k)) is Some,
    ensures
        labels_problem(ls) == labels_problem(ls.take(k)),
    decreases ls.len() - k,
{
    if k < ls.len() {
        assert(ls.take(k + 1).drop_last() =~= ls.take(k));
        lemma_labels_problem_prefix(ls, k + 1);
    } else {
        assert(ls.take(k) =~= ls);
    }
}

/// Validates the free-form and label content of an op before it is written.
pub fn validate_op(kind: &OpKind) -> (r: Result<(), GliError>)
    ensures
        match op_problem(kind@) {
            None => r is Ok,
            Some(e) => r matches Err(x) && x@ == e,
        },
{
    match kind {
        OpKind::Create { title, description, labels, .. } => {
            match check_size("title", title.as_str()) {
                Ok(()) => {},
                Err(e) => return Err(e),
            }
            match check_size("description", description.as_str()) {
                Ok(()) => {},
                Err(e) => return Err(e),
            }
            check_labels(labels)
        },
        OpKind::Comment { text } => check_size("comment", text.as_str()),
        OpKind::SetTitle { title } => check_size("title", title.as_str()),
        OpKind::SetDescription { description } => check_size("description", description.as_str()),
        OpKind::AddLabel { label } => validate_label(label.as_str()),
        OpKind::SetField { value, .. } => check_size("field value", value.as_str()),
        OpKind::AddFile { note, .. } => check_size("file note", note.as_str()),
        OpKind::SetFileNote { note, .. } => check_size("file note", note.as_str()),
        _ => Ok(()),
    }
}

// ---------------------------------------------------------------------------
// Identity
// ---------------------------------------------------------------------------

pub struct AuthorView {
    pub name: Seq<char>,
    pub email: Seq<char>,
}

impl View for Author {
    type V = AuthorView;

    open spec fn view(&self) -> AuthorView {
        AuthorView { name: self.name@, email: self.email@ }
    }
}

/// The part of an email address before its first `@`.
pub open spec fn local_part(email: Seq<char>) -> Seq<char> {
    crate::text::split_on(email, '@')[0]
}

/// The identity stamped on commits, from the configured `user.email` and
/// `user.name`: the email defaults to `gli@localhost`, the name to the
/// email's local part, or `gli` when that is empty.
pub open spec fn spec_author(email: Option<Seq<char>>, name: Option<Seq<char>>) -> AuthorView {
    let e = match email {
        Some(e) => e,
        None => "gli@localhost"@,
    };
    let n = match name {
        Some(n) => n,
        None => if local_part(e).len() > 0 {
            local_part(e)
        } else {
            "gli"@
        },
    };
    AuthorView { name: n, email: e }
}

/// The actor slug of an identity: from `user.name`, else from the local part
/// of `user.email`, else `anon`.
pub open spec fn spec_actor_of(name: Option<Seq<char>>, email: Option<Seq<char>>) -> Seq<char> {
    match name {
        Some(n) => spec_actor_slug(n),
        None => match email {
            Some(e) => spec_actor_slug(local_part(e)),
            None => spec_actor_slug("anon"@),
        },
    }
}

fn local_part_of(email: &str) -> (r: String)
    ensures
        r@ == local_part(email@),
{
    let v = crate::text::to_chars(email);
    let pieces = crate::text::split_chars(v.as_slice(), '@');
    proof {
        crate::text::lemma_split_nonempty(v@, '@');
    }
    crate::text::from_chars(pieces[0].as_slice())
}

/// The commit identity for the configured email and name.
pub fn author_from(email: Option<String>, name: Option<String>) -> (r: Author)
    ensures
        r@ == spec_author(email.deep_view(), name.deep_view()),
{
    let email = match email {
        Some(e) => e,
        None => "gli@localhost".to_owned(),
    };
    let name = match name {
        Some(n) => n,
        None => {
            let local = local_part_of(email.as_str());
            if local.as_str().is_empty() {
                "gli".to_owned()
            } else {
                local
            }
        },
    };
    Author { name, email }
}

/// The actor slug for the configured name and email.
pub fn actor_from(name: Option<String>, email: Option<String>) -> (r: String)
    ensures
        r@ == spec_actor_of(name.deep_view(), email.deep_view()),
{
    match name {
        Some(n) => actor_slug(n.as_str()),
        None => match email {
            Some(e) => {
                let local = local_part_of(e.as_str());
                actor_slug(local.as_str())
            },
            None => actor_slug("anon"),
        },
    }
}

/// The ref name for an issue uuid.
pub fn refname(uuid: &str) -> (r: String)
    ensures
        r@ == "refs/issues/"@ + uuid@,
{
    let mut r = "refs/issues/".to_owned();
    crate::text::push_str(&mut r, uuid);
    r
}

// ---------------------------------------------------------------------------
// Appending under compare-and-swap
// ---------------------------------------------------------------------------

/// What `append` does once the ref update has been tried: finish with the
/// commit, give up (a lost compare-and-swap after the last attempt becomes a
/// `Conflict`; any other error is passed on), or try again (`None`).
pub open spec fn spec_settle(
    uuid: Seq<char>,
    attempt: nat,
    outcome: Result<(), ErrView>,
    commit: Seq<char>,
) -> Option<Result<Seq<char>, ErrView>> {
    match outcome {
        Ok(()) => Some(Ok(commit)),
        Err(e) => if attempt >= MAX_APPEND_ATTEMPTS {
            Some(
                Err(
                    match e {
                        ErrView::Git(_) => ErrView::Conflict { uuid, attempts: attempt },
                        other => other,
                    },
                ),
            )
        } else {
            None
        },
    }
}

pub open spec fn unit_result_view(r: Result<(), GliError>) -> Result<(), ErrView> {
    match r {
        Ok(()) => Ok(()),
        Err(e) => Err(e@),
    }
}

/// Decides what follows a ref update in `append`; see [`spec_settle`].
pub fn settle_update(uuid: &str, attempt: u32, outcome: Result<(), GliError>, commit: String) -> (r:
    Option<Result<String, GliError>>)
    ensures
        match r {
            None => spec_settle(uuid@, attempt as nat, unit_result_view(outcome), commit@) is None,
            Some(Ok(c)) => spec_settle(uuid@, attempt as nat, unit_result_view(outcome), commit@)
                == Some(Ok::<Seq<char>, ErrView>(c@)),
            Some(Err(e)) => spec_settle(uuid@, attempt as nat, unit_result_view(outcome), commit@)
                == Some(Err::<Seq<char>, ErrView>(e@)),
        },
{
    match outcome {
        Ok(()) => Some(Ok(commit)),
        Err(e) => if attempt >= MAX_APPEND_ATTEMPTS {
            Some(
                Err(
                    match e {
                        GliError::Git(_) => GliError::Conflict {
                            uuid: uuid.to_owned(),
                            attempts: attempt,
                        },
                        other => other,
                    },
                ),
            )
        } else {
            None
        },
    }
}

/// The commit of the last op that has one.
pub open spec fn last_commit(ops: Seq<OpView>) -> Option<Seq<char>>
    decreases ops.len(),
{
    if ops.len() == 0 {
        None
    } else {
        match ops.last().commit {
            Some(c) => Some(c),
            None => last_commit(ops.drop_last()),
        }
    }
}

fn tip_of(ops: &Vec<Op>) -> (r: Option<String>)
    ensures
        r.deep_view() == last_commit(ops_view(ops@)),
{
    let mut i = ops.len();
    assert(ops@.take(i as int) =~= ops@);
    while i > 0
        invariant
            i <= ops@.len(),
            last_commit(ops_view(ops@)) == last_commit(ops_view(ops@.take(i as int))),
        decreases i,
    {
        proof {
            assert(ops_view(ops@.take(i as int)).drop_last() =~= ops_view(ops@.take(i - 1)));
        }
        match &ops[i - 1].commit {
            Some(c) => return Some(c.clone()),
            None => {},
        }
        i = i - 1;
    }
    None
}

proof fn lemma_actor_of_is_slug(n: Option<Seq<char>>, e: Option<Seq<char>>)
    ensures
        is_slug(spec_actor_of(n, e)),
{
    match n {
        Some(x) => crate::id::law_actor_slug_shape(x),
        None => match e {
            Some(x) => crate::id::law_actor_slug_shape(local_part(x)),
            None => crate::id::law_actor_slug_shape("anon"@),
        },
    }
}

// ---------------------------------------------------------------------------
// What a write asks of git
// ---------------------------------------------------------------------------

/// What recording one operation asks of a backend: commit `message` on
/// `parent` (no parent for a new chain), then point `refname` at that commit
/// if it still points at `expected` (a compare-and-swap; `None` when the ref
/// is new).
pub struct CommitRequest {
    pub parent: Option<String>,
    pub message: String,
    pub refname: String,
    pub expected: Option<String>,
}

pub struct CommitRequestView {
    pub parent: Option<Seq<char>>,
    pub message: Seq<char>,
    pub refname: Seq<char>,
    pub expected: Option<Seq<char>>,
}

impl View for CommitRequest {
    type V = CommitRequestView;

    open spec fn view(&self) -> CommitRequestView {
        CommitRequestView {
            parent: self.parent.deep_view(),
            message: self.message@,
            refname: self.refname@,
            expected: self.expected.deep_view(),
        }
    }
}

/// A freshly written operation (no provenance yet).
pub open spec fn fresh_op(id: Seq<char>, lamport: u64, actor: Seq<char>, kind: KindView) -> OpView {
    OpView {
        id,
        lamport,
        actor,
        format_version: FORMAT_VERSION,
        kind,
        commit: None,
        author: None,
        timestamp: None,
    }
}

/// The request that creates issue `uuid`: its `Create` operation at Lamport
/// clock 1 as the root commit of a new ref.
pub open spec fn spec_create_request(uuid: Seq<char>, id: Seq<char>, actor: Seq<char>, kind: KindView) -> CommitRequestView {
    CommitRequestView {
        parent: None,
        message: message_of(fresh_op(id, 1, actor, kind)),
        refname: "refs/issues/"@ + uuid,
        expected: None,
    }
}

pub open spec fn exhausted_error(uuid: Seq<char>) -> ErrView {
    ErrView::MalformedOp { commit: uuid, reason: "lamport clock exhausted"@ }
}

/// The request that appends an operation to issue `uuid`, whose log is
/// `ops`: the operation at the next Lamport clock, committed on the chain
/// tip, with the ref moved only if it still points at that tip. A log whose
/// clock is already at its greatest value cannot be extended.
pub open spec fn spec_append_request(
    uuid: Seq<char>,
    ops: Seq<OpView>,
    id: Seq<char>,
    actor: Seq<char>,
    kind: KindView,
) -> Result<CommitRequestView, ErrView> {
    if max_clock(ops) == u64::MAX {
        Err(exhausted_error(uuid))
    } else {
        Ok(
            CommitRequestView {
                parent: last_commit(ops),
                message: message_of(fresh_op(id, (max_clock(ops) + 1) as u64, actor, kind)),
                refname: "refs/issues/"@ + uuid,
                expected: last_commit(ops),
            },
        )
    }
}

/// Builds the request that creates an issue.
pub fn create_request(uuid: &str, op_id: String, actor: String, kind: &OpKind) -> (r: CommitRequest)
    ensures
        r@ == spec_create_request(uuid@, op_id@, actor@, kind@),
{
    let op = Op::new(op_id, 1, actor, kind.duplicate());
    CommitRequest { parent: None, message: op.to_commit_message(), refname: refname(uuid), expected: None }
}

/// Builds the request that appends an operation to an issue's log, or
/// refuses when the log's clock cannot advance.
pub fn append_request(uuid: &str, existing: &Vec<Op>, op_id: String, actor: String, kind: &OpKind) -> (r:
    Result<CommitRequest, GliError>)
    ensures
        match r {
            Ok(q) => spec_append_request(uuid@, ops_view(existing@), op_id@, actor@, kind@) == Ok::<
                CommitRequestView,
                ErrView,
            >(q@),
            Err(e) => spec_append_request(uuid@, ops_view(existing@), op_id@, actor@, kind@) == Err::<
                CommitRequestView,
                ErrView,
            >(e@),
        },
{
    if max_lamport(existing.as_slice()) == u64::MAX {
        return Err(
            GliError::MalformedOp { commit: uuid.to_owned(), reason: "lamport clock exhausted".to_owned() },
        );
    }
    let lamport = next_lamport(existing.as_slice());
    let op = Op::new(op_id, lamport, actor, kind.duplicate());
    let tip = tip_of(existing);
    let expected = match &tip {
        Some(t) => Some(t.clone()),
        None => None,
    };
    Ok(CommitRequest { parent: tip, message: op.to_commit_message(), refname: refname(uuid), expected })
}

// ---------------------------------------------------------------------------
// What a write does with what git hands back
// ---------------------------------------------------------------------------

pub open spec fn str_result(r: Result<String, GliError>) -> Result<Seq<char>, ErrView> {
    match r {
        Ok(s) => Ok(s@),
        Err(e) => Err(e@),
    }
}

pub open spec fn ops_result(r: Result<Vec<Op>, GliError>) -> Result<Seq<OpView>, ErrView> {
    match r {
        Ok(o) => Ok(ops_view(o@)),
        Err(e) => Err(e@),
    }
}

/// The listing has a ref for issue `uuid`.
pub open spec fn lists(es: Seq<(Seq<char>, Seq<char>)>, uuid: Seq<char>) -> bool {
    exists|i: int| 0 <= i < es.len() && (#[trigger] es[i]).0 == uuid
}

/// Loading issue `uuid`'s log from the listing of refs and the chain read
/// for its ref: the listing's error, `UnknownIssue` when it has no ref for
/// the issue, the read's error, or the chain read into ops.
pub open spec fn spec_load(
    uuid: Seq<char>,
    listed: Result<Seq<(Seq<char>, Seq<char>)>, ErrView>,
    chain: Result<Seq<RawCommitView>, ErrView>,
) -> Result<Seq<OpView>, ErrView> {
    match listed {
        Err(e) => Err(e),
        Ok(es) => if lists(es, uuid) {
            match chain {
                Err(e) => Err(e),
                Ok(cs) => crate::cache::ops_of_chain(cs),
            }
        } else {
            Err(ErrView::UnknownIssue(uuid))
        },
    }
}

/// What one attempt of `append` met: the listing, the chain read, the op id
/// and actor minted, and the results of the commit and of the ref update.
pub struct AttemptView {
    pub listed: Result<Seq<(Seq<char>, Seq<char>)>, ErrView>,
    pub chain: Result<Seq<RawCommitView>, ErrView>,
    pub id: Seq<char>,
    pub actor: Seq<char>,
    pub commit: Result<Seq<char>, ErrView>,
    pub update: Result<(), ErrView>,
}

/// How attempt number `k` ends: with the result, or `None` to try again.
pub open spec fn attempt_end(uuid: Seq<char>, kind: KindView, k: nat, a: AttemptView) -> Option<
    Result<Seq<char>, ErrView>,
> {
    match spec_load(uuid, a.listed, a.chain) {
        Err(e) => Some(Err(e)),
        Ok(ops) => match spec_append_request(uuid, ops, a.id, a.actor, kind) {
            Err(e) => Some(Err(e)),
            Ok(_) => match a.commit {
                Err(e) => Some(Err(e)),
                Ok(c) => spec_settle(uuid, k, a.update, c),
            },
        },
    }
}

/// The result of `append` over attempts `t`, the first numbered `k`: the
/// first attempt that ends decides it; `None` while all of them try again.
pub open spec fn append_run(uuid: Seq<char>, kind: KindView, k: nat, t: Seq<AttemptView>) -> Option<
    Result<Seq<char>, ErrView>,
>
    decreases t.len(),
{
    if t.len() == 0 {
        None
    } else {
        match attempt_end(uuid, kind, k, t[0]) {
            Some(r) => Some(r),
            None => append_run(uuid, kind, k + 1, t.drop_first()),
        }
    }
}

/// Every attempt of `t`, the first numbered `k`, tries again.
pub open spec fn all_retry(uuid: Seq<char>, kind: KindView, k: nat, t: Seq<AttemptView>) -> bool
    decreases t.len(),
{
    t.len() == 0 || (attempt_end(uuid, kind, k, t[0]) is None && all_retry(
        uuid,
        kind,
        k + 1,
        t.drop_first(),
    ))
}

proof fn lemma_run_after_retries(
    uuid: Seq<char>,
    kind: KindView,
    k: nat,
    t: Seq<AttemptView>,
    a: AttemptView,
)
    requires
        all_retry(uuid, kind, k, t),
    ensures
        append_run(uuid, kind, k, t.push(a)) == append_run(uuid, kind, k + t.len(), seq![a]),
    decreases t.len(),
{
    if t.len() > 0 {
        assert(t.push(a)[0] == t[0]);
        assert(t.push(a).drop_first() =~= t.drop_first().push(a));
        lemma_run_after_retries(uuid, kind, k + 1, t.drop_first(), a);
    } else {
        assert(t.push(a) =~= seq![a]);
    }
}

proof fn lemma_retries_push(uuid: Seq<char>, kind: KindView, k: nat, t: Seq<AttemptView>, a: AttemptView)
    requires
        all_retry(uuid, kind, k, t),
        attempt_end(uuid, kind, k + t.len(), a) is None,
    ensures
        all_retry(uuid, kind, k, t.push(a)),
    decreases t.len(),
{
    if t.len() > 0 {
        assert(t.push(a)[0] == t[0]);
        assert(t.push(a).drop_first() =~= t.drop_first().push(a));
        lemma_retries_push(uuid, kind, k + 1, t.drop_first(), a);
    } else {
        assert(t.push(a)[0] == a);
        assert(t.push(a).drop_first() =~= Seq::<AttemptView>::empty());
        assert(all_retry(uuid, kind, k + 1, Seq::<AttemptView>::empty()));
    }
}

/// An attempt in which everything went through but the ref update, which
/// git refused (another writer moved the ref first).
pub open spec fn lost_swap(uuid: Seq<char>, kind: KindView, a: AttemptView) -> bool {
    &&& spec_load(uuid, a.listed, a.chain) matches Ok(ops) && spec_append_request(
        uuid,
        ops,
        a.id,
        a.actor,
        kind,
    ) is Ok
    &&& a.commit is Ok
    &&& a.update matches Err(ErrView::Git(_))
}

/// The same attempt, but the ref update went through.
pub open spec fn clean(uuid: Seq<char>, kind: KindView, a: AttemptView) -> bool {
    &&& spec_load(uuid, a.listed, a.chain) matches Ok(ops) && spec_append_request(
        uuid,
        ops,
        a.id,
        a.actor,
        kind,
    ) is Ok
    &&& a.commit is Ok
    &&& a.update is Ok
}

proof fn lemma_lost_swaps_retry(uuid: Seq<char>, kind: KindView, k: nat, t: Seq<AttemptView>)
    requires
        forall|i: int| 0 <= i < t.len() ==> lost_swap(uuid, kind, #[trigger] t[i]),
        k + t.len() <= MAX_APPEND_ATTEMPTS,
    ensures
        all_retry(uuid, kind, k, t),
    decreases t.len(),
{
    if t.len() > 0 {
        assert(lost_swap(uuid, kind, t[0]));
        assert forall|i: int| 0 <= i < t.drop_first().len() implies lost_swap(
            uuid,
            kind,
            #[trigger] t.drop_first()[i],
        ) by {
            assert(t.drop_first()[i] == t[i + 1]);
        }
        lemma_lost_swaps_retry(uuid, kind, k + 1, t.drop_first());
    }
}

/// Law: a lost compare-and-swap is retried. When the first `j` attempts
/// (fewer than [`MAX_APPEND_ATTEMPTS`]) lose the ref update to another
/// writer and the next one goes through, `append` returns that attempt's
/// commit.
pub proof fn law_append_retries_lost_swaps(uuid: Seq<char>, kind: KindView, t: Seq<AttemptView>)
    requires
        1 <= t.len() <= MAX_APPEND_ATTEMPTS,
        forall|i: int| 0 <= i < t.len() - 1 ==> lost_swap(uuid, kind, #[trigger] t[i]),
        clean(uuid, kind, t.last()),
    ensures
        append_run(uuid, kind, 1, t) == Some(Ok::<Seq<char>, ErrView>(t.last().commit->Ok_0)),
{
    let p = t.drop_last();
    assert forall|i: int| 0 <= i < p.len() implies lost_swap(uuid, kind, #[trigger] p[i]) by {
        assert(p[i] == t[i]);
    }
    lemma_lost_swaps_retry(uuid, kind, 1, p);
    lemma_run_after_retries(uuid, kind, 1, p, t.last());
    assert(p.push(t.last()) =~= t);
}

/// Law: `append` gives up after [`MAX_APPEND_ATTEMPTS`] attempts. When
/// every attempt loses the ref update to another writer, the result is a
/// `Conflict` on the issue that counts all the attempts.
pub proof fn law_append_conflict_after_max_attempts(uuid: Seq<char>, kind: KindView, t: Seq<AttemptView>)
    requires
        t.len() == MAX_APPEND_ATTEMPTS,
        forall|i: int| 0 <= i < t.len() ==> lost_swap(uuid, kind, #[trigger] t[i]),
    ensures
        append_run(uuid, kind, 1, t) == Some(
            Err::<Seq<char>, ErrView>(
                ErrView::Conflict { uuid, attempts: MAX_APPEND_ATTEMPTS as nat },
            ),
        ),
{
    let p = t.drop_last();
    assert forall|i: int| 0 <= i < p.len() implies lost_swap(uuid, kind, #[trigger] p[i]) by {
        assert(p[i] == t[i]);
    }
    lemma_lost_swaps_retry(uuid, kind, 1, p);
    lemma_run_after_retries(uuid, kind, 1, p, t.last());
    assert(p.push(t.last()) =~= t);
    assert(lost_swap(uuid, kind, t[t.len() - 1]));
}

/// What `create` does with what git hands back: the commit's error, the ref
/// update's error, or the new issue's uuid.
pub open spec fn create_end(uuid: Seq<char>, commit: Result<Seq<char>, ErrView>, update: Result<(), ErrView>) -> Result<
    Seq<char>,
    ErrView,
> {
    match commit {
        Err(e) => Err(e),
        Ok(_) => match update {
            Err(e) => Err(e),
            Ok(()) => Ok(uuid),
        },
    }
}

/// A handle over a [`GitBackend`] that performs issue writes.
pub struct Store<'a> {
    backend: &'a dyn GitBackend,
}

impl<'a> Store<'a> {
    pub fn new(backend: &'a dyn GitBackend) -> (r: Store<'a>) {
        Store { backend }
    }

    /// The identity to stamp on commits, from git config with fallbacks.
    pub fn author(&self) -> (r: Author)
        ensures
            exists|e: Option<Seq<char>>, n: Option<Seq<char>>| r@ == spec_author(e, n),
    {
        let email = self.backend.config("user.email");
        let name = self.backend.config("user.name");
        let r = author_from(email, name);
        r
    }

    /// The actor slug that namespaces this identity's display numbers.
    pub fn actor_slug(&self) -> (r: String)
        ensures
            is_slug(r@),
            exists|n: Option<Seq<char>>, e: Option<Seq<char>>| r@ == spec_actor_of(n, e),
    {
        let name = self.backend.config("user.name");
        if name.is_none() {
            let email = self.backend.config("user.email");
            proof {
                lemma_actor_of_is_slug(None, email.deep_view());
            }
            return actor_from(None, email);
        }
        let r = actor_from(name, None);
        proof {
            lemma_actor_of_is_slug(name.deep_view(), None);
        }
        r
    }

    /// Creates a new issue and returns its uuid. A refused payload is
    /// refused before git is asked anything; otherwise the request of
    /// [`create_request`] (for a fresh uuid, a fresh op id and this store's
    /// actor) is handed to git, and whatever git answers decides the result.
    pub fn create(
        &self,
        title: &str,
        description: &str,
        labels: Vec<String>,
        assignee: Option<String>,
        priority: Option<String>,
    ) -> (r: Result<String, GliError>)
        ensures
            match op_problem(
                KindView::Create {
                    title: title@,
                    description: description@,
                    labels: labels.deep_view(),
                    assignee: assignee.deep_view(),
                    priority: priority.deep_view(),
                },
            ) {
                Some(e) => r matches Err(x) && x@ == e,
                None => exists|u: Seq<char>, c: Result<Seq<char>, ErrView>, up: Result<(), ErrView>|
                    {
                        &&& u.len() == 32
                        &&& forall|i: int| 0 <= i < 32 ==> is_lower_hex(#[trigger] u[i])
                        &&& #[trigger] create_end(u, c, up) == str_result(r)
                    },
            },
    {
        let kind = OpKind::Create {
            title: title.to_owned(),
            description: description.to_owned(),
            labels,
            assignee,
            priority,
        };
        match validate_op(&kind) {
            Ok(()) => {},
            Err(e) => return Err(e),
        }
        let uuid = new_uuid();
        let req = create_request(uuid.as_str(), new_uuid(), self.actor_slug(), &kind);
        let author = self.author();
        let commit = match self.backend.commit_op(None, req.message.as_str(), &author) {
            Ok(c) => c,
            Err(e) => {
                assert(create_end(uuid@, Err(e@), Ok(())) == str_result(Err::<String, GliError>(e)));
                return Err(e);
            },
        };
        match self.backend.update_ref(req.refname.as_str(), commit.as_str(), None) {
            Ok(()) => {},
            Err(e) => {
                assert(create_end(uuid@, Ok(commit@), Err(e@)) == str_result(Err::<String, GliError>(e)));
                return Err(e);
            },
        }
        assert(create_end(uuid@, Ok(commit@), Ok(())) == str_result(Ok::<String, GliError>(uuid)));
        Ok(uuid)
    }

    /// Appends an operation to an existing issue's chain and returns the new
    /// commit.
    ///
    /// Optimistic: each attempt loads the issue's log, hands git the request
    /// of [`append_request`] (the op at the next Lamport clock, committed on
    /// the tip, the ref moved only if still at the tip), and settles on what
    /// the ref update gave ([`settle_update`]): another writer having moved
    /// the ref first means a fresh attempt, up to [`MAX_APPEND_ATTEMPTS`]
    /// attempts in all, the last one reporting a `Conflict`. A refused
    /// payload is refused before git is asked anything.
    pub fn append(&self, uuid: &str, kind: OpKind) -> (r: Result<String, GliError>)
        ensures
            match op_problem(kind@) {
                Some(e) => r matches Err(x) && x@ == e,
                None => exists|t: Seq<AttemptView>|
                    t.len() <= MAX_APPEND_ATTEMPTS && #[trigger] append_run(uuid@, kind@, 1, t) == Some(
                        str_result(r),
                    ),
            },
    {
        let (r, t) = self.append_traced(uuid, kind);
        proof {
            if op_problem(kind@) is None {
                assert(append_run(uuid@, kind@, 1, t@) == Some(str_result(r)));
            }
        }
        r
    }

    /// [`Store::append`], together with the record of its attempts: what
    /// git listed, read and answered at each one, and the op id and actor
    /// minted for it.
    pub fn append_traced(&self, uuid: &str, kind: OpKind) -> (r: (
        Result<String, GliError>,
        Ghost<Seq<AttemptView>>,
    ))
        ensures
            match op_problem(kind@) {
                Some(e) => r.0 matches Err(x) && x@ == e,
                None => r.1@.len() <= MAX_APPEND_ATTEMPTS && append_run(uuid@, kind@, 1, r.1@) == Some(
                    str_result(r.0),
                ),
            },
    {
        match validate_op(&kind) {
            Ok(()) => {},
            Err(e) => return (Err(e), Ghost(Seq::empty())),
        }
        let mut attempt: u32 = 0;
        let ghost mut t: Seq<AttemptView> = Seq::empty();
        loop
            invariant
                attempt < MAX_APPEND_ATTEMPTS,
                op_problem(kind@) is None,
                t.len() == attempt,
                all_retry(uuid@, kind@, 1, t),
            decreases MAX_APPEND_ATTEMPTS - attempt,
        {
            attempt = attempt + 1;
            let loaded = self.load_ops(uuid);
            let ghost (listed, chain) = choose|
                l: Result<Seq<(Seq<char>, Seq<char>)>, ErrView>,
                c: Result<Seq<RawCommitView>, ErrView>,
            | ops_result(loaded) == spec_load(uuid@, l, c);
            let existing = match loaded {
                Ok(o) => o,
                Err(e) => {
                    let ghost a = AttemptView {
                            listed,
                            chain,
                            id: Seq::empty(),
                            actor: Seq::empty(),
                            commit: Err(e@),
                            update: Ok(()),
                        };
                    proof {
                        lemma_run_after_retries(uuid@, kind@, 1, t, a);
                    }
                    return (Err(e), Ghost(t.push(a)));
                },
            };
            let id = new_uuid();
            let actor = self.actor_slug();
            let ghost (idv, actorv) = (id@, actor@);
            let req = match append_request(uuid, &existing, id, actor, &kind) {
                Ok(q) => q,
                Err(e) => {
                    let ghost a = AttemptView {
                            listed,
                            chain,
                            id: idv,
                            actor: actorv,
                            commit: Err(e@),
                            update: Ok(()),
                        };
                    proof {
                        lemma_run_after_retries(uuid@, kind@, 1, t, a);
                    }
                    return (Err(e), Ghost(t.push(a)));
                },
            };
            let author = self.author();
            let parent: Option<&str> = match &req.parent {
                Some(p) => Some(p.as_str()),
                None => None,
            };
            let commit = match self.backend.commit_op(parent, req.message.as_str(), &author) {
                Ok(c) => c,
                Err(e) => {
                    let ghost a = AttemptView {
                            listed,
                            chain,
                            id: idv,
                            actor: actorv,
                            commit: Err(e@),
                            update: Ok(()),
                        };
                    proof {
                        lemma_run_after_retries(uuid@, kind@, 1, t, a);
                    }
                    return (Err(e), Ghost(t.push(a)));
                },
            };
            let expected: Option<&str> = match &req.expected {
                Some(p) => Some(p.as_str()),
                None => None,
            };
            let outcome = self.backend.update_ref(req.refname.as_str(), commit.as_str(), expected);
            let ghost a = AttemptView {
                listed,
                chain,
                id: idv,
                actor: actorv,
                commit: Ok(commit@),
                update: unit_result_view(outcome),
            };
            match settle_update(uuid, attempt, outcome, commit) {
                Some(res) => {
                    proof {
                        lemma_run_after_retries(uuid@, kind@, 1, t, a);
                    }
                    return (res, Ghost(t.push(a)));
                },
                None => {
                    proof {
                        lemma_retries_push(uuid@, kind@, 1, t, a);
                        t = t.push(a);
                    }
                },
            }
        }
    }

    /// Reads the op log of a single issue by uuid: what [`spec_load`] makes
    /// of the listing of refs and of the chain read for the issue's ref.
    fn load_ops(&self, uuid: &str) -> (r: Result<Vec<Op>, GliError>)
        ensures
            exists|
                l: Result<Seq<(Seq<char>, Seq<char>)>, ErrView>,
                c: Result<Seq<RawCommitView>, ErrView>,
            | ops_result(r) == #[trigger] spec_load(uuid@, l, c),
    {
        let entries = match self.backend.list_issue_refs() {
            Ok(e) => e,
            Err(e) => {
                assert(ops_result(Err::<Vec<Op>, GliError>(e)) == spec_load(
                    uuid@,
                    Err(e@),
                    Err(e@),
                ));
                return Err(e);
            },
        };
        let ghost es = crate::git::entry_views(entries@);
        let n = entries.len();
        let mut i: usize = 0;
        while i < n
            invariant
                n == entries@.len(),
                es == crate::git::entry_views(entries@),
                i <= n,
                forall|j: int| 0 <= j < i ==> (#[trigger] es[j]).0 != uuid@,
            decreases n - i,
        {
            if crate::text::str_eq(entries[i].uuid.as_str(), uuid) {
                let r = crate::cache::read_ops(self.backend, entries[i].tip.as_str());
                proof {
                    assert(es[i as int].0 == uuid@);
                    assert(lists(es, uuid@));
                    if r is Ok {
                        let ops = r->Ok_0;
                        let cs = choose|cs: Seq<RawCommitView>|
                            crate::cache::ops_of_chain(cs) == Ok::<Seq<OpView>, ErrView>(
                                ops_view(ops@),
                            );
                        assert(ops_result(r) == spec_load(uuid@, Ok(es), Ok(cs)));
                    } else {
                        let e = r->Err_0;
                        assert(ops_result(r) == spec_load(uuid@, Ok(es), Err(e@)));
                    }
                }
                return r;
            }
            i = i + 1;
        }
        let r = Err(GliError::UnknownIssue(uuid.to_owned()));
        proof {
            assert(!lists(es, uuid@));
            assert(ops_result(r) == spec_load(uuid@, Ok(es), Err(ErrView::NotAGitRepo)));
        }
        r
    }
}

} // verus!
