//! Integrity checks over the issue chains.
//!
//! fsck reads every `refs/issues/*` chain raw and validates the structural
//! invariants the model relies on: a single root `Create`, a linear chain,
//! parseable ops, unique op-ids, and a foldable log. Problems are reported
//! and make the check fail; notes are informational.
//!
//! Some problems make a ref unusable: an empty chain, an unparseable commit,
//! or a log that will not fold. [`quarantine`] moves such refs under
//! `refs/gli-quarantine/`, non-destructively, so one bad ref cannot brick
//! every command.
use crate::error::{error_text, ErrView, GliError};
use crate::git::{commit_views, entry_views, GitBackend, RawCommit, RawCommitView, RefEntry};
use crate::id::{short_of, short_prefix};
use crate::model::{no_create_error, ops_view, spec_fold, Issue, KindView, Op, OpKind, OpView};
use crate::store::refname;
use crate::text::dec;
use crate::wire::spec_parse_op;
use vstd::prelude::*;

verus! {

/// A ref that is not a usable issue and can be safely quarantined.
pub struct Repair {
    pub uuid: String,
    pub tip: String,
    pub reason: String,
}

pub struct Report {
    pub issue_count: usize,
    pub notes: Vec<String>,
    pub problems: Vec<String>,
    pub repairable: Vec<Repair>,
}

/// What the check finds in one chain.
pub struct ChainReport {
    pub problems: Vec<String>,
    pub notes: Vec<String>,
    /// Why the ref is unusable, when it is.
    pub repair: Option<String>,
}

pub struct ChainReportView {
    pub problems: Seq<Seq<char>>,
    pub notes: Seq<Seq<char>>,
    pub repair: Option<Seq<char>>,
}

impl View for ChainReport {
    type V = ChainReportView;

    open spec fn view(&self) -> ChainReportView {
        ChainReportView {
            problems: self.problems.deep_view(),
            notes: self.notes.deep_view(),
            repair: self.repair.deep_view(),
        }
    }
}

/// The quarantine ref name for an issue uuid.
pub fn quarantine_ref_name(uuid: &str) -> (r: String)
    ensures
        r@ == "refs/gli-quarantine/"@ + uuid@,
{
    let mut r = "refs/gli-quarantine/".to_owned();
    crate::text::push_str(&mut r, uuid);
    r
}

/// `<short>: <text>`.
pub open spec fn tagged(short: Seq<char>, text: Seq<char>) -> Seq<char> {
    short + ": "@ + text
}

/// The parse errors of a chain, each as a problem line, in chain order.
pub open spec fn parse_problems(short: Seq<char>, cs: Seq<RawCommitView>) -> Seq<Seq<char>>
    decreases cs.len(),
{
    if cs.len() == 0 {
        Seq::empty()
    } else {
        let r = parse_problems(short, cs.drop_last());
        match spec_parse_op(cs.last().message, cs.last().sha) {
            Ok(_) => r,
            Err(e) => r.push(tagged(short, error_text(e))),
        }
    }
}

/// The ops of a chain whose commits all parse.
pub open spec fn parsed_ops(cs: Seq<RawCommitView>) -> Seq<OpView>
    decreases cs.len(),
{
    if cs.len() == 0 {
        Seq::empty()
    } else {
        match spec_parse_op(cs.last().message, cs.last().sha) {
            Ok(op) => parsed_ops(cs.drop_last()).push(op),
            Err(_) => parsed_ops(cs.drop_last()),
        }
    }
}

/// The first seven characters of a commit sha.
pub open spec fn sha7(s: Seq<char>) -> Seq<char> {
    if s.len() <= 7 {
        s
    } else {
        s.take(7)
    }
}

/// A problem line for each merge commit after the root.
pub open spec fn merge_problems(short: Seq<char>, cs: Seq<RawCommitView>) -> Seq<Seq<char>>
    decreases cs.len(),
{
    if cs.len() <= 1 {
        Seq::empty()
    } else {
        let r = merge_problems(short, cs.drop_last());
        let c = cs.last();
        if c.parents.len() > 1 {
            r.push(
                tagged(
                    short,
                    "commit "@ + sha7(c.sha) + " is a merge ("@ + dec(c.parents.len())
                        + " parents); linear chain expected in v1"@,
                ),
            )
        } else {
            r
        }
    }
}

pub open spec fn count_creates(ops: Seq<OpView>) -> nat
    decreases ops.len(),
{
    if ops.len() == 0 {
        0
    } else {
        count_creates(ops.drop_last()) + if ops.last().kind is Create {
            1nat
        } else {
            0nat
        }
    }
}

pub open spec fn create_problems(short: Seq<char>, ops: Seq<OpView>) -> Seq<Seq<char>> {
    let n = count_creates(ops);
    if n == 1 {
        if ops[0].kind is Create {
            Seq::empty()
        } else {
            seq![tagged(short, "Create op is not the root of the chain"@)]
        }
    } else if n == 0 {
        seq![tagged(short, "no Create op in chain"@)]
    } else {
        seq![tagged(short, dec(n) + " Create ops (expected exactly 1)"@)]
    }
}

/// Some earlier op carries the same op-id.
pub open spec fn seen_before(ops: Seq<OpView>, i: int) -> bool {
    exists|j: int| 0 <= j < i && (#[trigger] ops[j]).id == ops[i].id
}

/// A problem line for each op whose op-id an earlier op already carries.
pub open spec fn dup_problems(short: Seq<char>, ops: Seq<OpView>) -> Seq<Seq<char>>
    decreases ops.len(),
{
    if ops.len() == 0 {
        Seq::empty()
    } else {
        let r = dup_problems(short, ops.drop_last());
        if seen_before(ops, ops.len() - 1) {
            r.push(tagged(short, "duplicate op-id "@ + ops.last().id))
        } else {
            r
        }
    }
}

/// A note for each step along the chain where the Lamport clock goes down.
pub open spec fn clock_notes(short: Seq<char>, ops: Seq<OpView>) -> Seq<Seq<char>>
    decreases ops.len(),
{
    if ops.len() <= 1 {
        Seq::empty()
    } else {
        let r = clock_notes(short, ops.drop_last());
        let a = ops[ops.len() - 2].lamport;
        let b = ops.last().lamport;
        if b < a {
            r.push(
                tagged(
                    short,
                    "lamport decreases ("@ + dec(a as nat) + " -> "@ + dec(b as nat)
                        + ") along the chain"@,
                ),
            )
        } else {
            r
        }
    }
}

/// What checking one chain finds.
pub open spec fn spec_check_chain(uuid: Seq<char>, cs: Seq<RawCommitView>) -> ChainReportView {
    let short = short_of(uuid);
    if cs.len() == 0 {
        ChainReportView {
            problems: seq![tagged(short, "ref points at an empty chain"@)],
            notes: Seq::empty(),
            repair: Some("empty chain"@),
        }
    } else if parse_problems(short, cs).len() > 0 {
        ChainReportView {
            problems: parse_problems(short, cs),
            notes: Seq::empty(),
            repair: Some("unparseable operation in chain"@),
        }
    } else {
        let ops = parsed_ops(cs);
        let root = if cs[0].parents.len() > 0 {
            seq![tagged(short, "root commit has a parent (not a chain root)"@)]
        } else {
            Seq::empty()
        };
        let structural = root + merge_problems(short, cs) + create_problems(short, ops)
            + dup_problems(short, ops);
        match spec_fold(uuid, ops) {
            Some(_) => ChainReportView {
                problems: structural,
                notes: clock_notes(short, ops),
                repair: None,
            },
            None => ChainReportView {
                problems: structural.push(tagged(short, error_text(no_create_error(uuid)))),
                notes: clock_notes(short, ops),
                repair: Some("does not fold into a valid issue"@),
            },
        }
    }
}

fn tag(short: &str, text: &str) -> (r: String)
    ensures
        r@ == tagged(short@, text@),
{
    let mut r = short.to_owned();
    crate::text::push_str(&mut r, ": ");
    crate::text::push_str(&mut r, text);
    r
}

pub fn sha7_of(sha: &str) -> (r: String)
    ensures
        r@ == sha7(sha@),
{
    let v = crate::text::to_chars(sha);
    if v.len() <= 7 {
        crate::text::from_chars(v.as_slice())
    } else {
        let r = crate::text::range_to_string(v.as_slice(), 0, 7);
        assert(v@.subrange(0, 7) =~= v@.take(7));
        r
    }
}

fn merge_text(sha: &str, parents: usize) -> (r: String)
    ensures
        r@ == "commit "@ + sha7(sha@) + " is a merge ("@ + dec(parents as nat)
            + " parents); linear chain expected in v1"@,
{
    let mut r = "commit ".to_owned();
    let s7 = sha7_of(sha);
    crate::text::push_str(&mut r, s7.as_str());
    crate::text::push_str(&mut r, " is a merge (");
    let d = crate::text::usize_to_string(parents);
    crate::text::push_str(&mut r, d.as_str());
    crate::text::push_str(&mut r, " parents); linear chain expected in v1");
    r
}

fn clock_text(a: u64, b: u64) -> (r: String)
    ensures
        r@ == "lamport decreases ("@ + dec(a as nat) + " -> "@ + dec(b as nat) + ") along the chain"@,
{
    let mut r = "lamport decreases (".to_owned();
    let da = crate::text::u64_to_string(a);
    crate::text::push_str(&mut r, da.as_str());
    crate::text::push_str(&mut r, " -> ");
    let db = crate::text::u64_to_string(b);
    crate::text::push_str(&mut r, db.as_str());
    crate::text::push_str(&mut r, ") along the chain");
    r
}

fn one(s: String) -> (r: Vec<String>)
    ensures
        r.deep_view() == seq![s@],
{
    let mut v: Vec<String> = Vec::new();
    v.push(s);
    assert(v.deep_view() =~= seq![s@]);
    v
}

/// Checks one chain: what is wrong with it, what is merely noteworthy, and
/// whether the ref is unusable.
pub fn check_chain(uuid: &str, commits: &[RawCommit]) -> (r: ChainReport)
    ensures
        r@ == spec_check_chain(uuid@, commit_views(commits@)),
{
    let short = short_prefix(uuid);
    let ghost sh = short@;
    let ghost cs = commit_views(commits@);
    let n = commits.len();
    if n == 0 {
        let e: Vec<String> = Vec::new();
        assert(e.deep_view() =~= Seq::<Seq<char>>::empty());
        return ChainReport {
            problems: one(tag(short.as_str(), "ref points at an empty chain")),
            notes: e,
            repair: Some("empty chain".to_owned()),
        };
    }
    // Every commit must parse into an op.
    let mut ops: Vec<Op> = Vec::new();
    let mut problems: Vec<String> = Vec::new();
    let mut i: usize = 0;
    assert(cs.take(0) =~= Seq::<RawCommitView>::empty());
    assert(problems.deep_view() =~= Seq::<Seq<char>>::empty());
    assert(ops_view(ops@) =~= Seq::<OpView>::empty());
    while i < n
        invariant
            n == commits@.len(),
            cs == commit_views(commits@),
            sh == short@,
            i <= n,
            problems.deep_view() == parse_problems(sh, cs.take(i as int)),
            ops_view(ops@) == parsed_ops(cs.take(i as int)),
        decreases n - i,
    {
        proof {
            assert(cs.take(i + 1).drop_last() =~= cs.take(i as int));
            assert(cs.take(i + 1).last() == commits@[i as int]@);
        }
        match Op::from_commit_message(commits[i].message.as_str(), commits[i].sha.as_str()) {
            Ok(op) => {
                let ghost before = ops_view(ops@);
                ops.push(op);
                assert(ops_view(ops@) =~= before.push(ops@.last()@));
            },
            Err(e) => {
                let m = e.message();
                let ghost before = problems.deep_view();
                problems.push(tag(short.as_str(), m.as_str()));
                assert(problems.deep_view() =~= before.push(tagged(sh, error_text(e@))));
            },
        }
        i = i + 1;
    }
    assert(cs.take(n as int) =~= cs);
    if problems.len() > 0 {
        let e: Vec<String> = Vec::new();
        assert(e.deep_view() =~= Seq::<Seq<char>>::empty());
        return ChainReport {
            problems,
            notes: e,
            repair: Some("unparseable operation in chain".to_owned()),
        };
    }
    let ghost ov = ops_view(ops@);
    // The root has no parent; later commits have at most one.
    let mut problems: Vec<String> = Vec::new();
    if commits[0].parents.len() > 0 {
        problems.push(tag(short.as_str(), "root commit has a parent (not a chain root)"));
    }
    let ghost root = problems.deep_view();
    assert(root =~= if cs[0].parents.len() > 0 {
        seq![tagged(sh, "root commit has a parent (not a chain root)"@)]
    } else {
        Seq::<Seq<char>>::empty()
    });
    let mut i: usize = 1;
    assert(root + merge_problems(sh, cs.take(1)) =~= root);
    while i < n
        invariant
            n == commits@.len(),
            cs == commit_views(commits@),
            sh == short@,
            1 <= i <= n,
            problems.deep_view() == root + merge_problems(sh, cs.take(i as int)),
        decreases n - i,
    {
        proof {
            assert(cs.take(i + 1).drop_last() =~= cs.take(i as int));
            assert(cs.take(i + 1).last() == commits@[i as int]@);
        }
        let np = commits[i].parents.len();
        if np > 1 {
            let t = merge_text(commits[i].sha.as_str(), np);
            let ghost before = problems.deep_view();
            problems.push(tag(short.as_str(), t.as_str()));
            assert(problems.deep_view() =~= before.push(tagged(sh, t@)));
        }
        i = i + 1;
    }
    let ghost after_merges = problems.deep_view();
    // Exactly one Create, at the root.
    let m = ops.len();
    let mut creates: usize = 0;
    let mut i: usize = 0;
    while i < m
        invariant
            m == ops@.len(),
            ov == ops_view(ops@),
            i <= m,
            creates <= i,
            creates as nat == count_creates(ov.take(i as int)),
        decreases m - i,
    {
        proof {
            assert(ov.take(i + 1).drop_last() =~= ov.take(i as int));
        }
        if let OpKind::Create { .. } = &ops[i].kind {
            creates = creates + 1;
        }
        i = i + 1;
    }
    assert(ov.take(m as int) =~= ov);
    if creates == 1 {
        if let OpKind::Create { .. } = &ops[0].kind {
        } else {
            problems.push(tag(short.as_str(), "Create op is not the root of the chain"));
        }
    } else if creates == 0 {
        problems.push(tag(short.as_str(), "no Create op in chain"));
    } else {
        let mut t = crate::text::usize_to_string(creates);
        crate::text::push_str(&mut t, " Create ops (expected exactly 1)");
        problems.push(tag(short.as_str(), t.as_str()));
    }
    let ghost after_creates = problems.deep_view();
    assert(after_creates =~= after_merges + create_problems(sh, ov));
    // Op-ids are unique within the issue.
    let mut i: usize = 0;
    assert(after_creates + dup_problems(sh, ov.take(0)) =~= after_creates);
    while i < m
        invariant
            m == ops@.len(),
            ov == ops_view(ops@),
            sh == short@,
            i <= m,
            problems.deep_view() == after_creates + dup_problems(sh, ov.take(i as int)),
        decreases m - i,
    {
        let mut seen = false;
        let mut j: usize = 0;
        while j < i
            invariant
                m == ops@.len(),
                ov == ops_view(ops@),
                i < m,
                j <= i,
                seen == exists|k: int| 0 <= k < j && (#[trigger] ov[k]).id == ov[i as int].id,
            decreases i - j,
        {
            assert(ov[j as int].id == ops@[j as int].id@);
            assert(ov[i as int].id == ops@[i as int].id@);
            if crate::text::str_eq(ops[j].id.as_str(), ops[i].id.as_str()) {
                seen = true;
            }
            j = j + 1;
        }
        proof {
            let t = ov.take(i + 1);
            assert(t.drop_last() =~= ov.take(i as int));
            assert(seen == seen_before(t, i as int)) by {
                if seen {
                    let k = choose|k: int| 0 <= k < i && (#[trigger] ov[k]).id == ov[i as int].id;
                    assert(t[k] == ov[k]);
                }
                if seen_before(t, i as int) {
                    let k = choose|k: int| 0 <= k < i && (#[trigger] t[k]).id == t[i as int].id;
                    assert(t[k] == ov[k]);
                }
            }
        }
        if seen {
            let mut t = "duplicate op-id ".to_owned();
            crate::text::push_str(&mut t, ops[i].id.as_str());
            let ghost before = problems.deep_view();
            problems.push(tag(short.as_str(), t.as_str()));
            assert(problems.deep_view() =~= before.push(tagged(sh, t@)));
        }
        i = i + 1;
    }
    // The Lamport clock should not go down along the chain.
    let mut notes: Vec<String> = Vec::new();
    let mut i: usize = 1;
    assert(notes.deep_view() =~= clock_notes(sh, ov.take(1)));
    while i < m
        invariant
            m == ops@.len(),
            ov == ops_view(ops@),
            sh == short@,
            1 <= i <= m,
            notes.deep_view() == clock_notes(sh, ov.take(i as int)),
        decreases m - i,
    {
        proof {
            assert(ov.take(i + 1).drop_last() =~= ov.take(i as int));
        }
        if ops[i].lamport < ops[i - 1].lamport {
            let t = clock_text(ops[i - 1].lamport, ops[i].lamport);
            let ghost before = notes.deep_view();
            notes.push(tag(short.as_str(), t.as_str()));
            assert(notes.deep_view() =~= before.push(tagged(sh, t@)));
        }
        i = i + 1;
    }
    // The log must fold.
    proof {
        assert(after_merges == root + merge_problems(sh, cs));
        assert(ov == parsed_ops(cs));
        assert(ov.take(m as int) =~= ov);
        assert(problems.deep_view() == root + merge_problems(sh, cs) + create_problems(sh, ov)
            + dup_problems(sh, ov));
        assert(notes.deep_view() == clock_notes(sh, ov));
        assert(parse_problems(sh, cs).len() == 0);
    }
    let ghost want = spec_check_chain(uuid@, cs);
    match Issue::fold(uuid, ops.as_slice()) {
        Ok(_) => {
            let r = ChainReport { problems, notes, repair: None };
            assert(r@.problems == want.problems);
            assert(r@.notes == want.notes);
            r
        },
        Err(e) => {
            let msg = e.message();
            let ghost before = problems.deep_view();
            problems.push(tag(short.as_str(), msg.as_str()));
            assert(problems.deep_view() =~= before.push(tagged(sh, error_text(no_create_error(uuid@)))));
            let r = ChainReport {
                problems,
                notes,
                repair: Some("does not fold into a valid issue".to_owned()),
            };
            assert(r@.problems == want.problems);
            assert(r@.notes == want.notes);
            r
        },
    }
}

/// The line reported for a quarantined ref.
pub open spec fn quarantine_action(uuid: Seq<char>, reason: Seq<char>) -> Seq<char> {
    "quarantined "@ + short_of(uuid) + " -> "@ + ("refs/gli-quarantine/"@ + uuid) + " ("@ + reason
        + ")"@
}

pub open spec fn quarantine_actions(rs: Seq<Repair>) -> Seq<Seq<char>> {
    rs.map_values(|r: Repair| quarantine_action(r.uuid@, r.reason@))
}

/// How quarantining `n` refs ends, from ref `i` on, given what git gave
/// for each ref's two calls (moving it, then deleting the old name): the
/// first refused call stops it with that call's error.
pub open spec fn quarantine_from(n: nat, outs: Seq<(Result<(), ErrView>, Result<(), ErrView>)>, i: int) -> Result<
    (),
    ErrView,
>
    decreases n - i,
{
    if i < 0 || i >= n {
        Ok(())
    } else {
        match outs[i].0 {
            Err(e) => Err(e),
            Ok(()) => match outs[i].1 {
                Err(e) => Err(e),
                Ok(()) => quarantine_from(n, outs, i + 1),
            },
        }
    }
}

pub open spec fn both_ok(o: (Result<(), ErrView>, Result<(), ErrView>)) -> bool {
    o.0 is Ok && o.1 is Ok
}

proof fn lemma_quarantine_skip(n: nat, outs: Seq<(Result<(), ErrView>, Result<(), ErrView>)>, i: int)
    requires
        0 <= i <= n,
        forall|j: int| 0 <= j < i ==> both_ok(#[trigger] outs[j]),
    ensures
        quarantine_from(n, outs, 0) == quarantine_from(n, outs, i),
    decreases i,
{
    if i > 0 {
        lemma_quarantine_skip(n, outs, i - 1);
        assert(both_ok(outs[i - 1]));
    }
}

/// Moves each repairable ref from `refs/issues/<uuid>` to
/// `refs/gli-quarantine/<uuid>`, preserving the commits (nothing is
/// deleted but the old ref). Returns the actions taken.
pub fn quarantine(backend: &dyn GitBackend, repairs: &[Repair]) -> (r: Result<Vec<String>, GliError>)
    ensures
        r matches Ok(actions) ==> actions.deep_view() == quarantine_actions(repairs@),
        repairs@.len() == 0 ==> r is Ok,
        exists|outs: Seq<(Result<(), ErrView>, Result<(), ErrView>)>|
            outs.len() == repairs@.len() && match r {
                Ok(_) => #[trigger] quarantine_from(repairs@.len(), outs, 0) is Ok,
                Err(e) => quarantine_from(repairs@.len(), outs, 0) == Err::<(), ErrView>(e@),
            },
{
    let mut actions: Vec<String> = Vec::new();
    let n = repairs.len();
    let mut i: usize = 0;
    let ghost mut outs: Seq<(Result<(), ErrView>, Result<(), ErrView>)> = Seq::empty();
    while i < n
        invariant
            n == repairs@.len(),
            i <= n,
            outs.len() == i,
            forall|j: int| 0 <= j < i ==> both_ok(#[trigger] outs[j]),
            actions.deep_view() == quarantine_actions(repairs@.take(i as int)),
        decreases n - i,
    {
        let r = &repairs[i];
        let dest = quarantine_ref_name(r.uuid.as_str());
        match backend.update_ref(dest.as_str(), r.tip.as_str(), None) {
            Ok(()) => {},
            Err(e) => {
                proof {
                    let full = outs.push((Err(e@), Ok(()))) + Seq::new(
                        (n - i - 1) as nat,
                        |j: int| (Ok::<(), ErrView>(()), Ok::<(), ErrView>(())),
                    );
                    assert forall|j: int| 0 <= j < i implies both_ok(#[trigger] full[j]) by {
                        assert(full[j] == outs[j]);
                    }
                    lemma_quarantine_skip(n as nat, full, i as int);
                    assert(full[i as int] == (Err::<(), ErrView>(e@), Ok::<(), ErrView>(())));
                    assert(full.len() == n);
                }
                return Err(e);
            },
        }
        let old_ref = refname(r.uuid.as_str());
        match backend.delete_ref(old_ref.as_str()) {
            Ok(()) => {},
            Err(e) => {
                proof {
                    let full = outs.push((Ok(()), Err(e@))) + Seq::new(
                        (n - i - 1) as nat,
                        |j: int| (Ok::<(), ErrView>(()), Ok::<(), ErrView>(())),
                    );
                    assert forall|j: int| 0 <= j < i implies both_ok(#[trigger] full[j]) by {
                        assert(full[j] == outs[j]);
                    }
                    lemma_quarantine_skip(n as nat, full, i as int);
                    assert(full[i as int] == (Ok::<(), ErrView>(()), Err::<(), ErrView>(e@)));
                    assert(full.len() == n);
                }
                return Err(e);
            },
        }
        proof {
            outs = outs.push((Ok(()), Ok(())));
        }
        let mut a = "quarantined ".to_owned();
        let short = short_prefix(r.uuid.as_str());
        crate::text::push_str(&mut a, short.as_str());
        crate::text::push_str(&mut a, " -> ");
        crate::text::push_str(&mut a, dest.as_str());
        crate::text::push_str(&mut a, " (");
        crate::text::push_str(&mut a, r.reason.as_str());
        crate::text::push_str(&mut a, ")");
        let ghost before = actions.deep_view();
        actions.push(a);
        proof {
            assert(actions.deep_view() =~= before.push(
                quarantine_action(repairs@[i as int].uuid@, repairs@[i as int].reason@),
            ));
            assert(quarantine_actions(repairs@.take(i + 1)) =~= quarantine_actions(
                repairs@.take(i as int),
            ).push(quarantine_action(repairs@[i as int].uuid@, repairs@[i as int].reason@)));
        }
        i = i + 1;
    }
    assert(repairs@.take(n as int) =~= repairs@);
    proof {
        lemma_quarantine_skip(n as nat, outs, n as int);
    }
    Ok(actions)
}

fn append_all(dst: &mut Vec<String>, src: Vec<String>)
    ensures
        final(dst).deep_view() == old(dst).deep_view() + src.deep_view(),
{
    let n = src.len();
    let mut i: usize = 0;
    while i < n
        invariant
            n == src@.len(),
            i <= n,
            dst.deep_view() == old(dst).deep_view() + src.deep_view().take(i as int),
        decreases n - i,
    {
        let ghost before = dst.deep_view();
        dst.push(src[i].clone());
        assert(dst.deep_view() =~= before.push(src@[i as int]@));
        assert(src.deep_view().take(i + 1) =~= src.deep_view().take(i as int).push(src@[i as int]@));
        i = i + 1;
    }
    assert(src.deep_view().take(n as int) =~= src.deep_view());
}

/// The model of a [`Report`].
pub struct ReportView {
    pub issue_count: nat,
    pub notes: Seq<Seq<char>>,
    pub problems: Seq<Seq<char>>,
    /// `(uuid, tip, reason)` of each ref offered for quarantine.
    pub repairable: Seq<(Seq<char>, Seq<char>, Seq<char>)>,
}

pub open spec fn repair_views(v: Seq<Repair>) -> Seq<(Seq<char>, Seq<char>, Seq<char>)> {
    v.map_values(|r: Repair| (r.uuid@, r.tip@, r.reason@))
}

impl View for Report {
    type V = ReportView;

    open spec fn view(&self) -> ReportView {
        ReportView {
            issue_count: self.issue_count as nat,
            notes: self.notes.deep_view(),
            problems: self.problems.deep_view(),
            repairable: repair_views(self.repairable@),
        }
    }
}

/// The models of some commit chains.
pub open spec fn chain_views(v: Seq<Vec<RawCommit>>) -> Seq<Seq<RawCommitView>> {
    v.map_values(|c: Vec<RawCommit>| commit_views(c@))
}

/// What checking the chains of the refs `es` (`(uuid, tip)`, listing order)
/// finds: each ref counts as an issue; the problems and notes of each chain
/// follow in order; a ref whose chain is unusable is offered for quarantine
/// with the reason.
pub open spec fn spec_check_all(es: Seq<(Seq<char>, Seq<char>)>, cs: Seq<Seq<RawCommitView>>) -> ReportView
    decreases es.len(),
{
    if es.len() == 0 {
        ReportView {
            issue_count: 0,
            notes: Seq::empty(),
            problems: Seq::empty(),
            repairable: Seq::empty(),
        }
    } else {
        let n = es.len() - 1;
        let p = spec_check_all(es.take(n), cs.take(n));
        let e = es[n];
        let cr = spec_check_chain(e.0, cs[n]);
        ReportView {
            issue_count: p.issue_count + 1,
            notes: p.notes + cr.notes,
            problems: p.problems + cr.problems,
            repairable: match cr.repair {
                Some(reason) => p.repairable.push((e.0, e.1, reason)),
                None => p.repairable,
            },
        }
    }
}

/// Checks the chains read for the listed refs (`chains[i]` is the chain of
/// `entries[i]`, oldest first).
pub fn check_chains(entries: &[RefEntry], chains: &[Vec<RawCommit>]) -> (r: Report)
    requires
        entries@.len() == chains@.len(),
    ensures
        r@ == spec_check_all(entry_views(entries@), chain_views(chains@)),
{
    let mut report = Report {
        issue_count: 0,
        notes: Vec::new(),
        problems: Vec::new(),
        repairable: Vec::new(),
    };
    let n = entries.len();
    let mut i: usize = 0;
    assert(report.notes.deep_view() =~= Seq::<Seq<char>>::empty());
    assert(report.problems.deep_view() =~= Seq::<Seq<char>>::empty());
    assert(repair_views(report.repairable@) =~= Seq::<(Seq<char>, Seq<char>, Seq<char>)>::empty());
    assert(report@ == spec_check_all(entry_views(entries@).take(0), chain_views(chains@).take(0)));
    while i < n
        invariant
            n == entries@.len(),
            n == chains@.len(),
            i <= n,
            report.issue_count == i,
            report@ == spec_check_all(entry_views(entries@).take(i as int), chain_views(chains@).take(i as int)),
        decreases n - i,
    {
        add_chain(&mut report, &entries[i], chains[i].as_slice());
        proof {
            let es = entry_views(entries@).take(i + 1);
            let cs = chain_views(chains@).take(i + 1);
            assert(es.take(i as int) =~= entry_views(entries@).take(i as int));
            assert(cs.take(i as int) =~= chain_views(chains@).take(i as int));
            assert(es[i as int] == (entries@[i as int].uuid@, entries@[i as int].tip@));
            assert(cs[i as int] == commit_views(chains@[i as int]@));
        }
        i = i + 1;
    }
    assert(entry_views(entries@).take(n as int) =~= entry_views(entries@));
    assert(chain_views(chains@).take(n as int) =~= chain_views(chains@));
    report
}

/// Adds what one ref's chain shows to a report.
fn add_chain(report: &mut Report, entry: &RefEntry, commits: &[RawCommit])
    requires
        old(report).issue_count < usize::MAX,
    ensures
        ({
            let cr = spec_check_chain(entry.uuid@, commit_views(commits@));
            let p = old(report)@;
            final(report)@ == (ReportView {
                issue_count: p.issue_count + 1,
                notes: p.notes + cr.notes,
                problems: p.problems + cr.problems,
                repairable: match cr.repair {
                    Some(reason) => p.repairable.push((entry.uuid@, entry.tip@, reason)),
                    None => p.repairable,
                },
            })
        }),
{
    report.issue_count = report.issue_count + 1;
    let cr = check_chain(entry.uuid.as_str(), commits);
    let ChainReport { problems, notes, repair } = cr;
    append_all(&mut report.problems, problems);
    append_all(&mut report.notes, notes);
    match repair {
        Some(reason) => {
            let ghost before = report.repairable@;
            report.repairable.push(
                Repair { uuid: entry.uuid.clone(), tip: entry.tip.clone(), reason },
            );
            assert(repair_views(report.repairable@) =~= repair_views(before).push(
                (entry.uuid@, entry.tip@, reason@),
            ));
        },
        None => {},
    }
}

/// Checks every issue chain. Each listed ref counts as an issue; its
/// problems and notes are gathered in order, and every unusable ref is
/// offered for quarantine. Whatever git lists and reads, the report is what
/// [`check_chains`] makes of it.
pub fn check(backend: &dyn GitBackend) -> (r: Result<Report, GliError>)
    ensures
        r matches Ok(rep) ==> exists|es: Seq<(Seq<char>, Seq<char>)>, cs: Seq<Seq<RawCommitView>>|
            es.len() == cs.len() && rep@ == spec_check_all(es, cs),
{
    let entries = match backend.list_issue_refs() {
        Ok(e) => e,
        Err(e) => return Err(e),
    };
    let mut report = Report {
        issue_count: 0,
        notes: Vec::new(),
        problems: Vec::new(),
        repairable: Vec::new(),
    };
    let ghost mut cs: Seq<Seq<RawCommitView>> = Seq::empty();
    let n = entries.len();
    let mut i: usize = 0;
    assert(report.notes.deep_view() =~= Seq::<Seq<char>>::empty());
    assert(report.problems.deep_view() =~= Seq::<Seq<char>>::empty());
    assert(repair_views(report.repairable@) =~= Seq::<(Seq<char>, Seq<char>, Seq<char>)>::empty());
    assert(report@ == spec_check_all(entry_views(entries@).take(0), cs));
    while i < n
        invariant
            n == entries@.len(),
            i <= n,
            cs.len() == i,
            report.issue_count == i,
            report@ == spec_check_all(entry_views(entries@).take(i as int), cs),
        decreases n - i,
    {
        let commits = match backend.read_chain(entries[i].tip.as_str()) {
            Ok(c) => c,
            Err(e) => return Err(e),
        };
        add_chain(&mut report, &entries[i], commits.as_slice());
        proof {
            let es = entry_views(entries@).take(i + 1);
            let cs2 = cs.push(commit_views(commits@));
            assert(es.take(i as int) =~= entry_views(entries@).take(i as int));
            assert(cs2.take(i as int) =~= cs);
            assert(es[i as int] == (entries@[i as int].uuid@, entries@[i as int].tip@));
            cs = cs2;
        }
        i = i + 1;
    }
    assert(entry_views(entries@).take(n as int) =~= entry_views(entries@));
    Ok(report)
}


// ---------------------------------------------------------------------------
// A chain must be linear
// ---------------------------------------------------------------------------

proof fn lemma_merge_reported(short: Seq<char>, cs: Seq<RawCommitView>, i: int)
    requires
        1 <= i < cs.len(),
        cs[i].parents.len() > 1,
    ensures
        merge_problems(short, cs).contains(
            tagged(
                short,
                "commit "@ + sha7(cs[i].sha) + " is a merge ("@ + dec(cs[i].parents.len())
                    + " parents); linear chain expected in v1"@,
            ),
        ),
    decreases cs.len(),
{
    let line = tagged(
        short,
        "commit "@ + sha7(cs[i].sha) + " is a merge ("@ + dec(cs[i].parents.len())
            + " parents); linear chain expected in v1"@,
    );
    let r = merge_problems(short, cs.drop_last());
    if i == cs.len() - 1 {
        assert(merge_problems(short, cs) == r.push(line));
        assert(r.push(line)[r.len() as int] == line);
    } else {
        lemma_merge_reported(short, cs.drop_last(), i);
        assert(cs.drop_last()[i] == cs[i]);
        let q = choose|q: int| 0 <= q < r.len() && r[q] == line;
        if cs.last().parents.len() > 1 {
            assert(merge_problems(short, cs)[q] == line);
        }
    }
}

/// Law: a chain must be linear after its root. When every commit of a chain
/// reads as an operation, each commit after the root that has more than
/// one parent is reported as a merge, with its short sha and its number of
/// parents, so the check of that chain fails.
pub proof fn law_merge_commit_is_a_problem(uuid: Seq<char>, cs: Seq<RawCommitView>, i: int)
    requires
        1 <= i < cs.len(),
        cs[i].parents.len() > 1,
        parse_problems(short_of(uuid), cs).len() == 0,
    ensures
        spec_check_chain(uuid, cs).problems.contains(
            short_of(uuid) + ": commit "@ + sha7(cs[i].sha) + " is a merge ("@ + dec(
                cs[i].parents.len(),
            ) + " parents); linear chain expected in v1"@,
        ),
        spec_check_chain(uuid, cs).problems.len() > 0,
{
    let short = short_of(uuid);
    let line = tagged(
        short,
        "commit "@ + sha7(cs[i].sha) + " is a merge ("@ + dec(cs[i].parents.len())
            + " parents); linear chain expected in v1"@,
    );
    reveal_strlit(": ");
    reveal_strlit("commit ");
    reveal_strlit(": commit ");
    assert(line =~= short_of(uuid) + ": commit "@ + sha7(cs[i].sha) + " is a merge ("@ + dec(
        cs[i].parents.len(),
    ) + " parents); linear chain expected in v1"@);
    lemma_merge_reported(short, cs, i);
    let ops = parsed_ops(cs);
    let root: Seq<Seq<char>> = if cs[0].parents.len() > 0 {
        seq![tagged(short, "root commit has a parent (not a chain root)"@)]
    } else {
        Seq::empty()
    };
    let m = merge_problems(short, cs);
    let structural = root + m + create_problems(short, ops) + dup_problems(short, ops);
    let q = choose|q: int| 0 <= q < m.len() && m[q] == line;
    assert(structural[root.len() + q] == line);
    let p = spec_check_chain(uuid, cs).problems;
    assert(p == structural || p == structural.push(
        tagged(short, error_text(no_create_error(uuid))),
    ));
    assert(p[root.len() + q] == line);
}


proof fn lemma_all_parse(short: Seq<char>, cs: Seq<RawCommitView>)
    requires
        forall|i: int| 0 <= i < cs.len() ==> spec_parse_op((#[trigger] cs[i]).message, cs[i].sha) is Ok,
    ensures
        parse_problems(short, cs).len() == 0,
        parsed_ops(cs).len() == cs.len(),
        forall|i: int|
            0 <= i < cs.len() ==> #[trigger] parsed_ops(cs)[i] == spec_parse_op(cs[i].message, cs[i].sha)->Ok_0,
    decreases cs.len(),
{
    if cs.len() > 0 {
        let d = cs.drop_last();
        assert forall|i: int| 0 <= i < d.len() implies spec_parse_op((#[trigger] d[i]).message, d[i].sha) is Ok by {
            assert(d[i] == cs[i]);
        }
        lemma_all_parse(short, d);
        assert(spec_parse_op(cs[cs.len() - 1].message, cs[cs.len() - 1].sha) is Ok);
        assert forall|i: int| 0 <= i < cs.len() implies #[trigger] parsed_ops(cs)[i] == spec_parse_op(
            cs[i].message,
            cs[i].sha,
        )->Ok_0 by {
            if i < cs.len() - 1 {
                assert(d[i] == cs[i]);
            }
        }
    }
}

proof fn lemma_linear_no_merges(short: Seq<char>, cs: Seq<RawCommitView>)
    requires
        forall|i: int| 1 <= i < cs.len() ==> (#[trigger] cs[i]).parents.len() <= 1,
    ensures
        merge_problems(short, cs).len() == 0,
    decreases cs.len(),
{
    if cs.len() > 1 {
        let d = cs.drop_last();
        assert forall|i: int| 1 <= i < d.len() implies (#[trigger] d[i]).parents.len() <= 1 by {
            assert(d[i] == cs[i]);
        }
        lemma_linear_no_merges(short, d);
        assert(cs[cs.len() - 1].parents.len() <= 1);
    }
}

proof fn lemma_one_create(ops: Seq<OpView>)
    requires
        ops.len() > 0,
        ops[0].kind is Create,
        forall|i: int| 1 <= i < ops.len() ==> !((#[trigger] ops[i]).kind is Create),
    ensures
        count_creates(ops) == 1,
    decreases ops.len(),
{
    if ops.len() > 1 {
        let d = ops.drop_last();
        assert forall|i: int| 1 <= i < d.len() implies !((#[trigger] d[i]).kind is Create) by {
            assert(d[i] == ops[i]);
        }
        assert(d[0] == ops[0]);
        lemma_one_create(d);
        assert(ops.last() == ops[ops.len() - 1]);
        assert(!(ops[ops.len() - 1].kind is Create));
    } else {
        assert(ops.drop_last().len() == 0);
        assert(count_creates(ops.drop_last()) == 0);
        assert(ops.last() == ops[0]);
    }
}

proof fn lemma_distinct_ids_no_dups(short: Seq<char>, ops: Seq<OpView>)
    requires
        forall|i: int, j: int| 0 <= i < j < ops.len() ==> (#[trigger] ops[i]).id != (#[trigger] ops[j]).id,
    ensures
        dup_problems(short, ops).len() == 0,
    decreases ops.len(),
{
    if ops.len() > 0 {
        let d = ops.drop_last();
        assert forall|i: int, j: int| 0 <= i < j < d.len() implies (#[trigger] d[i]).id != (
        #[trigger] d[j]).id by {
            assert(d[i] == ops[i] && d[j] == ops[j]);
        }
        lemma_distinct_ids_no_dups(short, d);
        if seen_before(ops, ops.len() - 1) {
            let j = choose|j: int| 0 <= j < ops.len() - 1 && (#[trigger] ops[j]).id == ops[ops.len() - 1].id;
            assert(false);
        }
    }
}

proof fn lemma_find_create_found(s: Seq<OpView>, k: int)
    requires
        0 <= k < s.len(),
        s[k].kind is Create,
    ensures
        crate::model::find_create(s) < s.len(),
    decreases s.len(),
{
    if !(s[0].kind is Create) {
        assert(s.drop_first()[k - 1] == s[k]);
        lemma_find_create_found(s.drop_first(), k - 1);
    }
}

/// Law: a healthy chain passes the check. When every commit of a chain
/// reads as an operation, the root commit has no parent and each later
/// commit one at most, the root's op is the one create of the chain, and no
/// two ops share an op-id, the check of the chain reports no problem and
/// offers no repair.
pub proof fn law_healthy_chain_has_no_problem(uuid: Seq<char>, cs: Seq<RawCommitView>)
    requires
        cs.len() > 0,
        forall|i: int| 0 <= i < cs.len() ==> spec_parse_op((#[trigger] cs[i]).message, cs[i].sha) is Ok,
        cs[0].parents.len() == 0,
        forall|i: int| 1 <= i < cs.len() ==> (#[trigger] cs[i]).parents.len() <= 1,
        spec_parse_op(cs[0].message, cs[0].sha)->Ok_0.kind is Create,
        forall|i: int|
            1 <= i < cs.len() ==> !(spec_parse_op((#[trigger] cs[i]).message, cs[i].sha)->Ok_0.kind is Create),
        forall|i: int, j: int|
            0 <= i < j < cs.len() ==> spec_parse_op((#[trigger] cs[i]).message, cs[i].sha)->Ok_0.id
                != spec_parse_op((#[trigger] cs[j]).message, cs[j].sha)->Ok_0.id,
    ensures
        spec_check_chain(uuid, cs).problems.len() == 0,
        spec_check_chain(uuid, cs).repair is None,
{
    broadcast use vstd::seq_lib::to_multiset_contains;

    let short = short_of(uuid);
    lemma_all_parse(short, cs);
    let ops = parsed_ops(cs);
    lemma_linear_no_merges(short, cs);
    assert forall|i: int| 1 <= i < ops.len() implies !((#[trigger] ops[i]).kind is Create) by {
        assert(ops[i] == spec_parse_op(cs[i].message, cs[i].sha)->Ok_0);
    }
    assert(ops[0] == spec_parse_op(cs[0].message, cs[0].sha)->Ok_0);
    lemma_one_create(ops);
    assert forall|i: int, j: int| 0 <= i < j < ops.len() implies (#[trigger] ops[i]).id != (
    #[trigger] ops[j]).id by {
        assert(ops[i] == spec_parse_op(cs[i].message, cs[i].sha)->Ok_0);
        assert(ops[j] == spec_parse_op(cs[j].message, cs[j].sha)->Ok_0);
    }
    lemma_distinct_ids_no_dups(short, ops);
    let t = crate::model::sort_ops(ops);
    crate::laws::lemma_sort_perm(ops);
    assert(ops.contains(ops[0]));
    assert(ops.to_multiset().count(ops[0]) > 0);
    assert(t.contains(ops[0]));
    let k = choose|k: int| 0 <= k < t.len() && t[k] == ops[0];
    lemma_find_create_found(t, k);
    assert(spec_fold(uuid, ops) is Some);
    let root: Seq<Seq<char>> = Seq::empty();
    assert(create_problems(short, ops).len() == 0);
    let structural = root + merge_problems(short, cs) + create_problems(short, ops) + dup_problems(short, ops);
    assert(structural.len() == 0);
}


/// Law: a chain must start at a root. When every commit of a chain reads
/// as an operation and its first commit has a parent, the check reports it.
pub proof fn law_rootless_chain_is_a_problem(uuid: Seq<char>, cs: Seq<RawCommitView>)
    requires
        cs.len() > 0,
        cs[0].parents.len() > 0,
        parse_problems(short_of(uuid), cs).len() == 0,
    ensures
        spec_check_chain(uuid, cs).problems.contains(
            short_of(uuid) + ": root commit has a parent (not a chain root)"@,
        ),
{
    let short = short_of(uuid);
    let ops = parsed_ops(cs);
    let line = tagged(short, "root commit has a parent (not a chain root)"@);
    reveal_strlit(": ");
    reveal_strlit("root commit has a parent (not a chain root)");
    reveal_strlit(": root commit has a parent (not a chain root)");
    assert(line =~= short + ": root commit has a parent (not a chain root)"@);
    let structural = seq![line] + merge_problems(short, cs) + create_problems(short, ops)
        + dup_problems(short, ops);
    assert(structural[0] == line);
    let p = spec_check_chain(uuid, cs).problems;
    assert(p == structural || p == structural.push(
        tagged(short, error_text(no_create_error(uuid))),
    ));
    assert(p[0] == line);
}

} // verus!
