//! The query cache.
//!
//! The cache is local, disposable and rebuildable: it is never the source of
//! truth and never synced. Every issue's op log is folded in memory on each
//! run ([`Cache::build`]); delete the cache and it rebuilds.
use crate::error::{ErrView, GliError};
use crate::git::{commit_views, GitBackend, RawCommit, RawCommitView};
use crate::id::{
    assign_display_ids, display_table, first_uuid, has_uuid, id_keys, resolve, short_of,
    short_prefix, spec_resolve, DisplayId, DisplayIdView, DisplayTable, ResView, Resolution,
};
use crate::model::{no_create_error, ops_view, spec_fold, Issue, IssueView, Op, OpView};
use crate::git::{entry_views, RefEntry};
use crate::trailer::pair_views;
use crate::text::seq_lt;
use crate::wire::spec_parse_op;
use vstd::prelude::*;

verus! {

/// `Name <email>`, the provenance recorded on an op read back from git.
pub open spec fn author_text(name: Seq<char>, email: Seq<char>) -> Seq<char> {
    name + " <"@ + email + ">"@
}

/// The op a commit records, with the commit's provenance attached.
pub open spec fn op_of_commit(c: RawCommitView) -> Result<OpView, ErrView> {
    match spec_parse_op(c.message, c.sha) {
        Ok(op) => Ok(
            OpView {
                commit: Some(c.sha),
                author: Some(author_text(c.author_name, c.author_email)),
                timestamp: Some(c.author_time),
                ..op
            },
        ),
        Err(e) => Err(e),
    }
}

/// The ops of a chain in order, or the error of its first unreadable commit.
pub open spec fn ops_of_chain(cs: Seq<RawCommitView>) -> Result<Seq<OpView>, ErrView>
    decreases cs.len(),
{
    if cs.len() == 0 {
        Ok(Seq::empty())
    } else {
        match ops_of_chain(cs.drop_last()) {
            Err(e) => Err(e),
            Ok(ops) => match op_of_commit(cs.last()) {
                Ok(op) => Ok(ops.push(op)),
                Err(e) => Err(e),
            },
        }
    }
}


/// Reads the op a commit records, attaching its provenance.
pub fn op_from_commit(c: &RawCommit) -> (r: Result<Op, GliError>)
    ensures
        match r {
            Ok(op) => op_of_commit(c@) == Ok::<OpView, ErrView>(op@),
            Err(e) => op_of_commit(c@) == Err::<OpView, ErrView>(e@),
        },
{
    let mut op = match Op::from_commit_message(c.message.as_str(), c.sha.as_str()) {
        Ok(op) => op,
        Err(e) => return Err(e),
    };
    let mut author = c.author_name.clone();
    crate::text::push_str(&mut author, " <");
    crate::text::push_str(&mut author, c.author_email.as_str());
    crate::text::push_str(&mut author, ">");
    op.commit = Some(c.sha.clone());
    op.author = Some(author);
    op.timestamp = Some(c.author_time);
    Ok(op)
}

/// Reads the ops of a chain, oldest first.
pub fn ops_from_chain(cs: &[RawCommit]) -> (r: Result<Vec<Op>, GliError>)
    ensures
        match r {
            Ok(ops) => ops_of_chain(commit_views(cs@)) == Ok::<Seq<OpView>, ErrView>(
                ops_view(ops@),
            ),
            Err(e) => ops_of_chain(commit_views(cs@)) == Err::<Seq<OpView>, ErrView>(e@),
        },
{
    let ghost cv = commit_views(cs@);
    let mut ops: Vec<Op> = Vec::new();
    let n = cs.len();
    let mut i: usize = 0;
    assert(cv.take(0) =~= Seq::<RawCommitView>::empty());
    assert(ops_view(ops@) =~= Seq::<OpView>::empty());
    while i < n
        invariant
            n == cs@.len(),
            cv == commit_views(cs@),
            i <= n,
            ops_of_chain(cv.take(i as int)) == Ok::<Seq<OpView>, ErrView>(ops_view(ops@)),
        decreases n - i,
    {
        proof {
            assert(cv.take(i + 1).drop_last() =~= cv.take(i as int));
            assert(cv.take(i + 1).last() == cs@[i as int]@);
        }
        match op_from_commit(&cs[i]) {
            Ok(op) => {
                let ghost before = ops_view(ops@);
                ops.push(op);
                assert(ops_view(ops@) =~= before.push(ops@.last()@));
            },
            Err(e) => {
                proof {
                    lemma_chain_error_prefix(cv, i as int + 1);
                }
                return Err(e);
            },
        }
        i = i + 1;
    }
    assert(cv.take(n as int) =~= cv);
    Ok(ops)
}

proof fn lemma_chain_error_prefix(cs: Seq<RawCommitView>, k: int)
    requires
        0 <= k <= cs.len(),
        ops_of_chain(cs.take(k)) is Err,
    ensures
        ops_of_chain(cs) == ops_of_chain(cs.take(k)),
    decreases cs.len() - k,
{
    if k < cs.len() {
        assert(cs.take(k + 1).drop_last() =~= cs.take(k));
        lemma_chain_error_prefix(cs, k + 1);
    } else {
        assert(cs.take(k) =~= cs);
    }
}

/// Reads and parses an issue's whole op log from its chain tip, attaching
/// commit provenance (author, timestamp) to each op.
pub fn read_ops(backend: &dyn GitBackend, tip: &str) -> (r: Result<Vec<Op>, GliError>)
    ensures
        r matches Ok(ops) ==> exists|cs: Seq<RawCommitView>|
            ops_of_chain(cs) == Ok::<Seq<OpView>, ErrView>(ops_view(ops@)),
{
    let chain = match backend.read_chain(tip) {
        Ok(c) => c,
        Err(e) => return Err(e),
    };
    ops_from_chain(chain.as_slice())
}

/// An in-memory snapshot of every issue: folded state plus display ids.
pub struct Cache {
    /// Folded issues, sorted by uuid (time order) for stable listing.
    pub issues: Vec<Issue>,
    /// Raw op log per issue uuid (kept for status/fsck and appends).
    pub ops: Vec<(String, Vec<Op>)>,
    /// Chain tip commit per issue uuid (for compare-and-swap writes).
    pub tips: Vec<(String, String)>,
    /// Drift-allowed display ids, one per issue uuid.
    pub display: DisplayTable,
}

/// Issues in ascending uuid order.
pub open spec fn uuid_sorted(issues: Seq<Issue>) -> bool {
    forall|i: int, j: int| 0 <= i < j < issues.len() ==> !seq_lt(issues[j].uuid@, issues[i].uuid@)
}

/// The index of the first issue with uuid `u` (there is one).
pub open spec fn first_issue(issues: Seq<Issue>, u: Seq<char>) -> int {
    choose|i: int|
        0 <= i < issues.len() && issues[i].uuid@ == u && forall|j: int| 0 <= j < i ==> (
        #[trigger] issues[j]).uuid@ != u
}

pub open spec fn has_issue(issues: Seq<Issue>, u: Seq<char>) -> bool {
    exists|i: int| 0 <= i < issues.len() && (#[trigger] issues[i]).uuid@ == u
}

/// The display id of `u`, or a stand-in built from its short prefix.
pub open spec fn display_or_short(es: Seq<DisplayIdView>, u: Seq<char>) -> DisplayIdView {
    if has_uuid(es, u) {
        es[first_uuid(es, u)]
    } else {
        DisplayIdView {
            uuid: u,
            nonce: short_of(u),
            actor: Seq::empty(),
            number: 0,
            handle: short_of(u),
            short: short_of(u),
        }
    }
}

/// How an ambiguous match is listed: the actor nonce and the full uuid.
pub open spec fn candidate_text(es: Seq<DisplayIdView>, u: Seq<char>) -> Seq<char> {
    display_or_short(es, u).nonce + " ("@ + u + ")"@
}

/// What a query resolves to, as the command line reports it.
pub open spec fn spec_cache_resolve(es: Seq<DisplayIdView>, q: Seq<char>) -> Result<Seq<char>, ErrView> {
    match spec_resolve(q, es) {
        ResView::Unique(u) => Ok(u),
        ResView::NoMatch => Err(ErrView::UnknownIssue(q)),
        ResView::Ambiguous(us) => Err(
            ErrView::AmbiguousId {
                query: q,
                candidates: us.map_values(|u: Seq<char>| candidate_text(es, u)),
            },
        ),
    }
}

fn insert_sorted(issues: &mut Vec<Issue>, issue: Issue)
    requires
        uuid_sorted(old(issues)@),
    ensures
        uuid_sorted(final(issues)@),
        exists|k: int| 0 <= k <= old(issues)@.len() && final(issues)@ == old(issues)@.insert(k, issue),
{
    let ghost pre = issues@;
    let mut i: usize = 0;
    while i < issues.len() && !crate::text::str_lt(issue.uuid.as_str(), issues[i].uuid.as_str())
        invariant
            i <= issues@.len(),
            issues@ == pre,
            uuid_sorted(pre),
            forall|j: int| 0 <= j < i ==> !seq_lt(issue.uuid@, #[trigger] pre[j].uuid@),
        decreases issues@.len() - i,
    {
        i = i + 1;
    }
    issues.insert(i, issue);
    proof {
        let post = issues@;
        assert forall|a: int, b: int| 0 <= a < b < post.len() implies !seq_lt(
            post[b].uuid@,
            post[a].uuid@,
        ) by {
            if b < i {
                assert(post[a] == pre[a] && post[b] == pre[b]);
            } else if b == i {
                assert(post[a] == pre[a]);
            } else if a == i {
                assert(post[b] == pre[b - 1]);
                if (b - 1) as int >= i as int && i < pre.len() {
                    assert(seq_lt(issue.uuid@, pre[i as int].uuid@));
                    if b - 1 > i {
                        assert(!seq_lt(pre[b - 1].uuid@, pre[i as int].uuid@));
                    }
                    if seq_lt(pre[b - 1].uuid@, issue.uuid@) {
                        if b - 1 > i {
                            crate::text::lemma_seq_lt_total(pre[b - 1].uuid@, pre[i as int].uuid@);
                            if pre[b - 1].uuid@ == pre[i as int].uuid@ {
                                crate::text::lemma_seq_lt_asym(issue.uuid@, pre[i as int].uuid@);
                            } else {
                                crate::text::lemma_seq_lt_trans(
                                    pre[i as int].uuid@,
                                    pre[b - 1].uuid@,
                                    issue.uuid@,
                                );
                                crate::text::lemma_seq_lt_asym(issue.uuid@, pre[i as int].uuid@);
                            }
                        } else {
                            crate::text::lemma_seq_lt_asym(issue.uuid@, pre[i as int].uuid@);
                        }
                    }
                }
            } else if a < i {
                assert(post[a] == pre[a] && post[b] == pre[b - 1]);
            } else {
                assert(post[a] == pre[a - 1] && post[b] == pre[b - 1]);
            }
        }
        assert(post =~= pre.insert(i as int, issue));
    }
}

/// The models of some issues.
pub open spec fn issue_views(v: Seq<Issue>) -> Seq<IssueView> {
    v.map_values(|i: Issue| i@)
}

/// The `(uuid, op log)` models of some op logs.
pub open spec fn op_logs(v: Seq<(String, Vec<Op>)>) -> Seq<(Seq<char>, Seq<OpView>)> {
    v.map_values(|p: (String, Vec<Op>)| (p.0@, ops_view(p.1@)))
}

/// A chain's op log and the issue it folds to, or why it cannot be read.
pub open spec fn chain_fold(uuid: Seq<char>, cs: Seq<RawCommitView>) -> Result<(Seq<OpView>, IssueView), ErrView> {
    match ops_of_chain(cs) {
        Err(e) => Err(e),
        Ok(ops) => match spec_fold(uuid, ops) {
            Some(v) => Ok((ops, v)),
            None => Err(no_create_error(uuid)),
        },
    }
}

/// Folding the chains of the refs `es` (`(uuid, tip)`) in order: the issues
/// and `(uuid, op log)`s, or the first failure.
pub open spec fn spec_fold_all(es: Seq<(Seq<char>, Seq<char>)>, cs: Seq<Seq<RawCommitView>>) -> Result<
    (Seq<IssueView>, Seq<(Seq<char>, Seq<OpView>)>),
    ErrView,
>
    decreases es.len(),
{
    if es.len() == 0 {
        Ok((Seq::empty(), Seq::empty()))
    } else {
        let n = es.len() - 1;
        match spec_fold_all(es.take(n), cs.take(n)) {
            Err(e) => Err(e),
            Ok((f, logs)) => match chain_fold(es[n].0, cs[n]) {
                Err(e) => Err(e),
                Ok((ops, v)) => Ok((f.push(v), logs.push((es[n].0, ops)))),
            },
        }
    }
}

/// Folding the refs `es` (`(uuid, tip)`) from what reading their chains
/// gave (`reads[i]` for `es[i]`), in order: the issues and `(uuid, op log)`s,
/// or the first failure, whether a read's error or a chain that does not
/// read or fold.
pub open spec fn spec_build_all(
    es: Seq<(Seq<char>, Seq<char>)>,
    reads: Seq<Result<Seq<RawCommitView>, ErrView>>,
) -> Result<(Seq<IssueView>, Seq<(Seq<char>, Seq<OpView>)>), ErrView>
    decreases es.len(),
{
    if es.len() == 0 {
        Ok((Seq::empty(), Seq::empty()))
    } else {
        let n = es.len() - 1;
        match spec_build_all(es.take(n), reads.take(n)) {
            Err(e) => Err(e),
            Ok((f, logs)) => match reads[n] {
                Err(e) => Err(e),
                Ok(cs) => match chain_fold(es[n].0, cs) {
                    Err(e) => Err(e),
                    Ok((ops, v)) => Ok((f.push(v), logs.push((es[n].0, ops)))),
                },
            },
        }
    }
}

/// What `build` returns matches the listing and the reads: the listing's
/// error, or what [`spec_build_all`] makes of the reads.
pub open spec fn build_matches(
    listed: Result<Seq<(Seq<char>, Seq<char>)>, ErrView>,
    reads: Seq<Result<Seq<RawCommitView>, ErrView>>,
    r: Result<Cache, GliError>,
) -> bool {
    match listed {
        Err(le) => r matches Err(e) && e@ == le,
        Ok(es) => reads.len() == es.len() && match r {
            Ok(c) => spec_build_all(es, reads) matches Ok((f, logs)) && cache_holds(c, es, f, logs),
            Err(e) => spec_build_all(es, reads) == Err::<
                (Seq<IssueView>, Seq<(Seq<char>, Seq<OpView>)>),
                ErrView,
            >(e@),
        },
    }
}

/// Once building fails, reading more chains fails the same way.
proof fn lemma_build_all_stays_err(
    es: Seq<(Seq<char>, Seq<char>)>,
    reads: Seq<Result<Seq<RawCommitView>, ErrView>>,
    k: int,
)
    requires
        0 <= k <= es.len(),
        es.len() == reads.len(),
        spec_build_all(es.take(k), reads.take(k)) is Err,
    ensures
        spec_build_all(es, reads) == spec_build_all(es.take(k), reads.take(k)),
    decreases es.len() - k,
{
    if k < es.len() {
        assert(es.take(k + 1).take(k) =~= es.take(k));
        assert(reads.take(k + 1).take(k) =~= reads.take(k));
        lemma_build_all_stays_err(es, reads, k + 1);
    } else {
        assert(es.take(k) =~= es);
        assert(reads.take(k) =~= reads);
    }
}

/// The cache holds the folded issues `f` sorted by uuid, the op logs
/// `logs` and the tips `es` in listing order, and the display ids of its
/// issues.
pub open spec fn cache_holds(
    c: Cache,
    es: Seq<(Seq<char>, Seq<char>)>,
    f: Seq<IssueView>,
    logs: Seq<(Seq<char>, Seq<OpView>)>,
) -> bool {
    &&& uuid_sorted(c.issues@)
    &&& issue_views(c.issues@).to_multiset() == f.to_multiset()
    &&& op_logs(c.ops@) == logs
    &&& pair_views(c.tips@) == es
    &&& c.display@ == display_table(id_keys(c.issues@))
}

/// A cache under construction.
struct Parts {
    issues: Vec<Issue>,
    ops: Vec<(String, Vec<Op>)>,
    tips: Vec<(String, String)>,
}

spec fn parts_hold(
    p: Parts,
    es: Seq<(Seq<char>, Seq<char>)>,
    f: Seq<IssueView>,
    logs: Seq<(Seq<char>, Seq<OpView>)>,
) -> bool {
    &&& uuid_sorted(p.issues@)
    &&& issue_views(p.issues@).to_multiset() == f.to_multiset()
    &&& op_logs(p.ops@) == logs
    &&& pair_views(p.tips@) == es
}

proof fn lemma_parts_empty(p: &Parts)
    requires
        p.issues@.len() == 0,
        p.ops@.len() == 0,
        p.tips@.len() == 0,
    ensures
        spec_fold_all(Seq::<(Seq<char>, Seq<char>)>::empty(), Seq::<Seq<RawCommitView>>::empty())
            matches Ok((f, logs)) && parts_hold(*p, Seq::empty(), f, logs),
{
    assert(issue_views(p.issues@) =~= Seq::<IssueView>::empty());
    assert(op_logs(p.ops@) =~= Seq::<(Seq<char>, Seq<OpView>)>::empty());
    assert(pair_views(p.tips@) =~= Seq::<(Seq<char>, Seq<char>)>::empty());
}

/// Once folding fails, folding more chains fails the same way.
proof fn lemma_fold_all_stays_err(es: Seq<(Seq<char>, Seq<char>)>, cs: Seq<Seq<RawCommitView>>, k: int)
    requires
        0 <= k <= es.len(),
        es.len() == cs.len(),
        spec_fold_all(es.take(k), cs.take(k)) is Err,
    ensures
        spec_fold_all(es, cs) == spec_fold_all(es.take(k), cs.take(k)),
    decreases es.len() - k,
{
    if k < es.len() {
        let es2 = es.take(k + 1);
        let cs2 = cs.take(k + 1);
        assert(es2.take(k) =~= es.take(k));
        assert(cs2.take(k) =~= cs.take(k));
        assert(es.take(k + 1).take(k) =~= es.take(k));
        lemma_fold_all_stays_err(es, cs, k + 1);
    } else {
        assert(es.take(k) =~= es);
        assert(cs.take(k) =~= cs);
    }
}

/// Reads one ref's chain into its op log and folds it into the cache under
/// construction, or returns why it cannot be.
fn add_issue(parts: &mut Parts, entry: &RefEntry, chain: &[RawCommit]) -> (r: Result<(), GliError>)
    requires
        uuid_sorted(old(parts).issues@),
    ensures
        match chain_fold(entry.uuid@, commit_views(chain@)) {
            Ok((ops, v)) => r is Ok && uuid_sorted(final(parts).issues@)
                && issue_views(final(parts).issues@).to_multiset() == issue_views(
                old(parts).issues@,
            ).to_multiset().insert(v) && op_logs(final(parts).ops@) == op_logs(old(parts).ops@).push(
                (entry.uuid@, ops),
            ) && pair_views(final(parts).tips@) == pair_views(old(parts).tips@).push(
                (entry.uuid@, entry.tip@),
            ),
            Err(e) => r matches Err(x) && x@ == e,
        },
{
    let ops = match ops_from_chain(chain) {
        Ok(o) => o,
        Err(e) => return Err(e),
    };
    let issue = match Issue::fold(entry.uuid.as_str(), ops.as_slice()) {
        Ok(x) => x,
        Err(e) => return Err(e),
    };
    let ghost pre_i = parts.issues@;
    let ghost pre_o = parts.ops@;
    let ghost pre_t = parts.tips@;
    parts.tips.push((entry.uuid.clone(), entry.tip.clone()));
    parts.ops.push((entry.uuid.clone(), ops));
    let ghost iv = issue@;
    insert_sorted(&mut parts.issues, issue);
    proof {
        assert(pair_views(parts.tips@) =~= pair_views(pre_t).push((entry.uuid@, entry.tip@)));
        assert(op_logs(parts.ops@) =~= op_logs(pre_o).push((entry.uuid@, ops_view(ops@))));
        let k = choose|k: int| 0 <= k <= pre_i.len() && parts.issues@ == pre_i.insert(k, issue);
        assert(issue_views(parts.issues@) =~= issue_views(pre_i).insert(k, iv));
        vstd::seq_lib::to_multiset_insert(issue_views(pre_i), k, iv);
    }
    Ok(())
}

impl Cache {
    /// Builds the cache from the chains read for the listed refs
    /// (`chains[i]` is the chain of `entries[i]`, oldest first): each chain
    /// is read into its op log and folded, or the first failure is returned.
    pub fn from_chains(entries: &[RefEntry], chains: &[Vec<RawCommit>]) -> (r: Result<Cache, GliError>)
        requires
            entries@.len() == chains@.len(),
        ensures
            match spec_fold_all(entry_views(entries@), crate::fsck::chain_views(chains@)) {
                Ok((f, logs)) => r matches Ok(c) && cache_holds(c, entry_views(entries@), f, logs),
                Err(e) => r matches Err(x) && x@ == e,
            },
    {
        let mut parts = Parts { issues: Vec::new(), ops: Vec::new(), tips: Vec::new() };
        proof {
            lemma_parts_empty(&parts);
            assert(entry_views(entries@).take(0) =~= Seq::<(Seq<char>, Seq<char>)>::empty());
            assert(crate::fsck::chain_views(chains@).take(0) =~= Seq::<Seq<RawCommitView>>::empty());
        }
        let n = entries.len();
        let mut i: usize = 0;
        while i < n
            invariant
                n == entries@.len(),
                n == chains@.len(),
                i <= n,
                spec_fold_all(entry_views(entries@).take(i as int), crate::fsck::chain_views(chains@).take(i as int))
                    matches Ok((f, logs)) && parts_hold(parts, entry_views(entries@).take(i as int), f, logs),
            decreases n - i,
        {
            let ghost fl = spec_fold_all(
                entry_views(entries@).take(i as int),
                crate::fsck::chain_views(chains@).take(i as int),
            )->Ok_0;
            proof {
                let es = entry_views(entries@).take(i + 1);
                let cs = crate::fsck::chain_views(chains@).take(i + 1);
                assert(es.take(i as int) =~= entry_views(entries@).take(i as int));
                assert(cs.take(i as int) =~= crate::fsck::chain_views(chains@).take(i as int));
                assert(es[i as int] == (entries@[i as int].uuid@, entries@[i as int].tip@));
                assert(cs[i as int] == commit_views(chains@[i as int]@));
            }
            match add_issue(&mut parts, &entries[i], chains[i].as_slice()) {
                Ok(()) => {
                    proof {
                        let es = entry_views(entries@).take(i + 1);
                        let v = chain_fold(entries@[i as int].uuid@, commit_views(chains@[i as int]@))->Ok_0.1;
                        vstd::seq_lib::to_multiset_build(fl.0, v);
                        assert(es =~= es.take(i as int).push(es[i as int]));
                    }
                },
                Err(e) => {
                    proof {
                        lemma_fold_all_stays_err(
                            entry_views(entries@),
                            crate::fsck::chain_views(chains@),
                            i as int + 1,
                        );
                        assert(entry_views(entries@).take(n as int) =~= entry_views(entries@));
                        assert(crate::fsck::chain_views(chains@).take(n as int) =~= crate::fsck::chain_views(chains@));
                    }
                    return Err(e);
                },
            }
            i = i + 1;
        }
        assert(entry_views(entries@).take(n as int) =~= entry_views(entries@));
        assert(crate::fsck::chain_views(chains@).take(n as int) =~= crate::fsck::chain_views(chains@));
        let Parts { issues, ops, tips } = parts;
        let display = assign_display_ids(issues.as_slice());
        Ok(Cache { issues, ops, tips, display })
    }

    /// Builds the cache by reading and folding every `refs/issues/*` chain,
    /// in listing order; the first failure (listing the refs, reading a
    /// chain, or a chain that does not read into ops or fold) is returned.
    /// Whatever git lists and reads, the result is what [`spec_build_all`]
    /// makes of it.
    pub fn build(backend: &dyn GitBackend) -> (r: Result<Cache, GliError>)
        ensures
            exists|
                listed: Result<Seq<(Seq<char>, Seq<char>)>, ErrView>,
                reads: Seq<Result<Seq<RawCommitView>, ErrView>>,
            | #[trigger] build_matches(listed, reads, r),
    {
        let entries = match backend.list_issue_refs() {
            Ok(e) => e,
            Err(e) => {
                let ghost le = e@;
                let r = Err(e);
                assert(build_matches(Err(le), Seq::empty(), r));
                return r;
            },
        };
        let ghost ev = entry_views(entries@);
        let mut parts = Parts { issues: Vec::new(), ops: Vec::new(), tips: Vec::new() };
        proof {
            lemma_parts_empty(&parts);
        }
        let ghost mut reads: Seq<Result<Seq<RawCommitView>, ErrView>> = Seq::empty();
        proof {
            assert(ev.take(0) =~= Seq::<(Seq<char>, Seq<char>)>::empty());
        }
        let n = entries.len();
        let mut i: usize = 0;
        while i < n
            invariant
                n == entries@.len(),
                ev == entry_views(entries@),
                i <= n,
                reads.len() == i,
                spec_build_all(ev.take(i as int), reads) matches Ok((f, logs))
                    && parts_hold(parts, ev.take(i as int), f, logs),
            decreases n - i,
        {
            let ghost fl = spec_build_all(ev.take(i as int), reads)->Ok_0;
            proof {
                assert(ev.take(i + 1).take(i as int) =~= ev.take(i as int));
                assert(ev.take(i + 1)[i as int] == (entries@[i as int].uuid@, entries@[i as int].tip@));
            }
            let chain = match backend.read_chain(entries[i].tip.as_str()) {
                Ok(c) => c,
                Err(e) => {
                    proof {
                        let full = reads.push(Err(e@)) + Seq::new(
                            (n - i - 1) as nat,
                            |j: int| Err::<Seq<RawCommitView>, ErrView>(e@),
                        );
                        assert(full.take(i as int) =~= reads);
                        assert(full.take(i + 1).take(i as int) =~= reads);
                        assert(full.take(i + 1)[i as int] == Err::<Seq<RawCommitView>, ErrView>(e@));
                        lemma_build_all_stays_err(ev, full, i + 1);
                        assert(ev.len() == full.len());
                        assert(spec_build_all(ev, full) == Err::<
                            (Seq<IssueView>, Seq<(Seq<char>, Seq<OpView>)>),
                            ErrView,
                        >(e@));
                        assert(build_matches(Ok(ev), full, Err(e)));
                    }
                    return Err(e);
                },
            };
            let ghost read = Ok::<Seq<RawCommitView>, ErrView>(commit_views(chain@));
            match add_issue(&mut parts, &entries[i], chain.as_slice()) {
                Ok(()) => {},
                Err(e) => {
                    proof {
                        let full = reads.push(read) + Seq::new(
                            (n - i - 1) as nat,
                            |j: int| Err::<Seq<RawCommitView>, ErrView>(e@),
                        );
                        assert(full.take(i as int) =~= reads);
                        assert(full.take(i + 1).take(i as int) =~= reads);
                        assert(full.take(i + 1)[i as int] == read);
                        lemma_build_all_stays_err(ev, full, i + 1);
                        assert(ev.len() == full.len());
                        assert(spec_build_all(ev, full) == Err::<
                            (Seq<IssueView>, Seq<(Seq<char>, Seq<OpView>)>),
                            ErrView,
                        >(e@));
                        assert(build_matches(Ok(ev), full, Err(e)));
                    }
                    return Err(e);
                },
            }
            proof {
                let es = ev.take(i + 1);
                let v = chain_fold(entries@[i as int].uuid@, commit_views(chain@))->Ok_0.1;
                vstd::seq_lib::to_multiset_build(fl.0, v);
                assert(es =~= es.take(i as int).push(es[i as int]));
                let r2 = reads.push(read);
                assert(r2.take(i as int) =~= reads);
                assert(r2[i as int] == read);
                reads = r2;
            }
            i = i + 1;
        }
        assert(ev.take(n as int) =~= ev);
        let Parts { issues, ops, tips } = parts;
        let display = assign_display_ids(issues.as_slice());
        let r = Ok(Cache { issues, ops, tips, display });
        assert(build_matches(Ok(ev), reads, r));
        r
    }

    /// The folded issue with uuid `uuid`.
    pub fn issue(&self, uuid: &str) -> (r: Option<&Issue>)
        ensures
            match r {
                Some(i) => has_issue(self.issues@, uuid@) && *i == self.issues@[first_issue(
                    self.issues@,
                    uuid@,
                )],
                None => !has_issue(self.issues@, uuid@),
            },
    {
        let n = self.issues.len();
        let mut i: usize = 0;
        while i < n
            invariant
                n == self.issues@.len(),
                i <= n,
                forall|j: int| 0 <= j < i ==> (#[trigger] self.issues@[j]).uuid@ != uuid@,
            decreases n - i,
        {
            if crate::text::str_eq(self.issues[i].uuid.as_str(), uuid) {
                proof {
                    let is = self.issues@;
                    let k = first_issue(is, uuid@);
                    assert(is[i as int].uuid@ == uuid@);
                    assert(k == i as int) by {
                        if k < i as int {
                            assert(is[k].uuid@ != uuid@);
                        } else if k > i as int {
                            assert(is[i as int].uuid@ != uuid@);
                        }
                    }
                }
                return Some(&self.issues[i]);
            }
            i = i + 1;
        }
        None
    }

    /// The display id for a uuid (a short-prefix stand-in if it has none).
    pub fn display_of(&self, uuid: &str) -> (r: DisplayId)
        ensures
            r@ == display_or_short(self.display@, uuid@),
    {
        match self.display.get(uuid) {
            Some(d) => d.duplicate(),
            None => {
                let short = short_prefix(uuid);
                DisplayId {
                    uuid: uuid.to_owned(),
                    nonce: short.clone(),
                    actor: String::new(),
                    number: 0,
                    handle: short.clone(),
                    short,
                }
            },
        }
    }

    /// Resolves an id query to a single uuid, turning a miss or an
    /// ambiguity into a typed error that lists the candidates.
    pub fn resolve(&self, query: &str) -> (r: Result<String, GliError>)
        ensures
            match r {
                Ok(u) => spec_cache_resolve(self.display@, query@) == Ok::<Seq<char>, ErrView>(u@),
                Err(e) => spec_cache_resolve(self.display@, query@) == Err::<Seq<char>, ErrView>(
                    e@,
                ),
            },
    {
        match resolve(query, &self.display) {
            Resolution::Unique(uuid) => Ok(uuid),
            Resolution::NoMatch => Err(GliError::UnknownIssue(query.to_owned())),
            Resolution::Ambiguous(us) => {
                let ghost es = self.display@;
                let mut cands: Vec<String> = Vec::new();
                let n = us.len();
                let mut i: usize = 0;
                while i < n
                    invariant
                        n == us@.len(),
                        es == self.display@,
                        i <= n,
                        cands.deep_view() =~= us.deep_view().take(i as int).map_values(
                            |u: Seq<char>| candidate_text(es, u),
                        ),
                    decreases n - i,
                {
                    let d = self.display_of(us[i].as_str());
                    let mut c = d.nonce.clone();
                    crate::text::push_str(&mut c, " (");
                    crate::text::push_str(&mut c, us[i].as_str());
                    crate::text::push_str(&mut c, ")");
                    let ghost before = cands.deep_view();
                    cands.push(c);
                    proof {
                        let f = |u: Seq<char>| candidate_text(es, u);
                        assert(cands.deep_view() =~= before.push(candidate_text(es, us@[i as int]@)));
                        assert(us.deep_view().take(i + 1).map_values(f) =~= us.deep_view().take(
                            i as int,
                        ).map_values(f).push(f(us@[i as int]@)));
                    }
                    i = i + 1;
                }
                assert(us.deep_view().take(n as int) =~= us.deep_view());
                Err(GliError::AmbiguousId { query: query.to_owned(), candidates: cands })
            },
        }
    }
}

} // verus!
