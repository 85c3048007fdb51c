//! What the CRDT state promises whatever order operations arrive in: the
//! registers, the sets, the comment log and the fold.
use crate::model::{
    CommentView, apply_op, default_state_view, KindView, StateValView, fold_ops, insert_pos, IssueView, lemma_insert_pos_bounds, lemma_sort_len, op_lt, set_add, set_present, sort_ops,
    spec_fold, stamp_lt, LwwView, OpView,
};
use crate::text::{lemma_seq_lt_asym, lemma_seq_lt_irrefl, lemma_seq_lt_total, lemma_seq_lt_trans};
use vstd::prelude::*;

verus! {

proof fn lemma_stamp_total(l1: u64, i1: Seq<char>, l2: u64, i2: Seq<char>)
    ensures
        (l1 == l2 && i1 == i2) || stamp_lt(l1, i1, l2, i2) || stamp_lt(l2, i2, l1, i1),
{
    lemma_seq_lt_total(i1, i2);
}

proof fn lemma_stamp_trans(l1: u64, i1: Seq<char>, l2: u64, i2: Seq<char>, l3: u64, i3: Seq<char>)
    requires
        stamp_lt(l1, i1, l2, i2),
        stamp_lt(l2, i2, l3, i3),
    ensures
        stamp_lt(l1, i1, l3, i3),
{
    if l1 == l2 && l2 == l3 {
        lemma_seq_lt_trans(i1, i2, i3);
    }
}

proof fn lemma_stamp_asym(l1: u64, i1: Seq<char>, l2: u64, i2: Seq<char>)
    requires
        stamp_lt(l1, i1, l2, i2),
    ensures
        !stamp_lt(l2, i2, l1, i1),
        !(l1 == l2 && i1 == i2),
{
    if l1 == l2 {
        lemma_seq_lt_asym(i1, i2);
        lemma_seq_lt_irrefl(i1);
    }
}

/// Law: two writes with different stamps leave a register in the same state
/// whichever arrives first (the one with the greater `(lamport, op-id)` wins).
pub proof fn law_lww_writes_commute<V>(
    r: LwwView<V>,
    v1: V,
    l1: u64,
    i1: Seq<char>,
    v2: V,
    l2: u64,
    i2: Seq<char>,
)
    requires
        !(l1 == l2 && i1 == i2),
    ensures
        r.applied(v1, l1, i1).applied(v2, l2, i2) == r.applied(v2, l2, i2).applied(v1, l1, i1),
{
    lemma_stamp_total(l1, i1, l2, i2);
    if r.set {
        lemma_stamp_total(r.lamport, r.tiebreak, l1, i1);
        lemma_stamp_total(r.lamport, r.tiebreak, l2, i2);
        if stamp_lt(l1, i1, l2, i2) {
            lemma_stamp_asym(l1, i1, l2, i2);
            if stamp_lt(r.lamport, r.tiebreak, l1, i1) {
                lemma_stamp_trans(r.lamport, r.tiebreak, l1, i1, l2, i2);
            }
            if stamp_lt(l2, i2, r.lamport, r.tiebreak) {
                lemma_stamp_trans(l1, i1, l2, i2, r.lamport, r.tiebreak);
                lemma_stamp_asym(l1, i1, r.lamport, r.tiebreak);
                lemma_stamp_asym(l2, i2, r.lamport, r.tiebreak);
            }
        } else {
            lemma_stamp_asym(l2, i2, l1, i1);
            if stamp_lt(r.lamport, r.tiebreak, l2, i2) {
                lemma_stamp_trans(r.lamport, r.tiebreak, l2, i2, l1, i1);
            }
            if stamp_lt(l1, i1, r.lamport, r.tiebreak) {
                lemma_stamp_trans(l2, i2, l1, i1, r.lamport, r.tiebreak);
                lemma_stamp_asym(l1, i1, r.lamport, r.tiebreak);
                lemma_stamp_asym(l2, i2, r.lamport, r.tiebreak);
            }
        }
    } else {
        if stamp_lt(l1, i1, l2, i2) {
            lemma_stamp_asym(l1, i1, l2, i2);
        } else {
            lemma_stamp_asym(l2, i2, l1, i1);
        }
    }
}

/// Law: a write applied twice leaves the register as applying it once does.
pub proof fn law_lww_write_idempotent<V>(r: LwwView<V>, v: V, l: u64, i: Seq<char>)
    ensures
        r.applied(v, l, i).applied(v, l, i) == r.applied(v, l, i),
{
    lemma_seq_lt_irrefl(i);
}

/// Law: after a write, the register holds the write with the greater stamp
/// of the two: the new one if it beats the old, else the old one unchanged.
pub proof fn law_lww_greatest_stamp_wins<V>(r: LwwView<V>, v: V, l: u64, i: Seq<char>)
    requires
        r.set,
    ensures
        stamp_lt(r.lamport, r.tiebreak, l, i) ==> r.applied(v, l, i).value == v,
        !stamp_lt(r.lamport, r.tiebreak, l, i) ==> r.applied(v, l, i) == r,
        r.applied(v, l, i).set,
{
}

/// Law: an added element is present, whatever the set held before.
pub proof fn law_orset_add_present(m: Map<Seq<char>, Seq<Seq<char>>>, e: Seq<char>, t: Seq<char>)
    ensures
        set_present(set_add(m, e, t), e),
{
    if m.contains_key(e) && m[e].contains(t) {
        let k = choose|k: int| 0 <= k < m[e].len() && m[e][k] == t;
        assert(m[e].len() > 0);
    }
}

/// Law: adding an element with a tag it already carries changes nothing.
pub proof fn law_orset_add_idempotent(m: Map<Seq<char>, Seq<Seq<char>>>, e: Seq<char>, t: Seq<char>)
    ensures
        set_add(set_add(m, e, t), e, t) == set_add(m, e, t),
{
    let m1 = set_add(m, e, t);
    if m.contains_key(e) {
        if !m[e].contains(t) {
            assert(m1[e] == m[e].push(t));
            assert(m1[e][m[e].len() as int] == t);
        }
    } else {
        assert(m1[e] == seq![t]);
        assert(m1[e][0] == t);
    }
}

/// Law: a removed element is absent, and removal touches no other element.
pub proof fn law_orset_remove_absent(m: Map<Seq<char>, Seq<Seq<char>>>, e: Seq<char>, x: Seq<char>)
    ensures
        !set_present(m.remove(e), e),
        x != e ==> set_present(m.remove(e), x) == set_present(m, x),
{
}

/// Law: re-adding after a remove makes the element present again.
pub proof fn law_orset_readd_after_remove(
    m: Map<Seq<char>, Seq<Seq<char>>>,
    e: Seq<char>,
    t: Seq<char>,
)
    ensures
        set_present(set_add(m.remove(e), e, t), e),
{
}

// ---------------------------------------------------------------------------
// The fold does not depend on the order ops are read in
// ---------------------------------------------------------------------------

/// Ops in causal order: none is above a later one.
pub open spec fn ops_sorted(s: Seq<OpView>) -> bool {
    forall|i: int, j: int| 0 <= i < j < s.len() ==> !op_lt(#[trigger] s[j], #[trigger] s[i])
}

/// Ops that share a `(lamport, op-id)` stamp are the same op.
pub open spec fn stamps_identify(s: Seq<OpView>) -> bool {
    forall|i: int, j: int|
        0 <= i < s.len() && 0 <= j < s.len() && (#[trigger] s[i]).lamport == (#[trigger] s[j]).lamport
            && s[i].id == s[j].id ==> s[i] == s[j]
}

/// Not above `b` and `b` not above `c`: `a` not above `c`.
proof fn lemma_le_trans(a: OpView, b: OpView, c: OpView)
    requires
        !op_lt(b, a),
        !op_lt(c, b),
    ensures
        !op_lt(c, a),
{
    lemma_stamp_total(a.lamport, a.id, b.lamport, b.id);
    lemma_stamp_total(b.lamport, b.id, c.lamport, c.id);
    if op_lt(c, a) {
        if stamp_lt(a.lamport, a.id, b.lamport, b.id) {
            lemma_stamp_trans(c.lamport, c.id, a.lamport, a.id, b.lamport, b.id);
        }
    }
}

proof fn lemma_insert_pos_props(t: Seq<OpView>, x: OpView)
    requires
        ops_sorted(t),
    ensures
        0 <= insert_pos(t, x) <= t.len(),
        forall|k: int| 0 <= k < insert_pos(t, x) ==> !op_lt(x, #[trigger] t[k]),
        forall|k: int| insert_pos(t, x) <= k < t.len() ==> op_lt(x, #[trigger] t[k]),
    decreases t.len(),
{
    lemma_insert_pos_bounds(t, x);
    if t.len() > 0 {
        let d = t.drop_last();
        assert(ops_sorted(d)) by {
            assert forall|i: int, j: int| 0 <= i < j < d.len() implies !op_lt(
                #[trigger] d[j],
                #[trigger] d[i],
            ) by {
                assert(d[i] == t[i] && d[j] == t[j]);
            }
        }
        lemma_insert_pos_props(d, x);
        if !op_lt(x, t.last()) {
            assert forall|k: int| 0 <= k < t.len() implies !op_lt(x, #[trigger] t[k]) by {
                if k < t.len() - 1 {
                    assert(!op_lt(t[t.len() - 1], t[k]));
                    lemma_le_trans(t[k], t[t.len() - 1], x);
                }
            }
        } else {
            assert forall|k: int| 0 <= k < insert_pos(t, x) implies !op_lt(x, #[trigger] t[k]) by {
                assert(t[k] == d[k]);
            }
            assert forall|k: int| insert_pos(t, x) <= k < t.len() implies op_lt(x, #[trigger] t[k]) by {
                if k < t.len() - 1 {
                    assert(t[k] == d[k]);
                }
            }
        }
    }
}

proof fn lemma_sort_sorted(s: Seq<OpView>)
    ensures
        ops_sorted(sort_ops(s)),
    decreases s.len(),
{
    if s.len() > 0 {
        lemma_sort_sorted(s.drop_last());
        let t = sort_ops(s.drop_last());
        let x = s.last();
        lemma_insert_pos_props(t, x);
        let p = insert_pos(t, x);
        let u = t.insert(p, x);
        assert forall|i: int, j: int| 0 <= i < j < u.len() implies !op_lt(
            #[trigger] u[j],
            #[trigger] u[i],
        ) by {
            if j < p {
                assert(u[i] == t[i] && u[j] == t[j]);
            } else if j == p {
                assert(u[i] == t[i]);
            } else if i == p {
                assert(u[j] == t[j - 1]);
                assert(op_lt(x, t[j - 1]));
                lemma_stamp_asym(x.lamport, x.id, t[j - 1].lamport, t[j - 1].id);
            } else if i < p {
                assert(u[i] == t[i] && u[j] == t[j - 1]);
            } else {
                assert(u[i] == t[i - 1] && u[j] == t[j - 1]);
            }
        }
    }
}

pub(crate) proof fn lemma_sort_perm(s: Seq<OpView>)
    ensures
        sort_ops(s).to_multiset() == s.to_multiset(),
    decreases s.len(),
{
    broadcast use vstd::seq_lib::to_multiset_build, vstd::seq_lib::to_multiset_insert;

    if s.len() > 0 {
        lemma_sort_perm(s.drop_last());
        let t = sort_ops(s.drop_last());
        lemma_insert_pos_bounds(t, s.last());
        assert(s =~= s.drop_last().push(s.last()));
    } else {
        assert(sort_ops(s) == s);
    }
}

proof fn lemma_sorted_max(s: Seq<OpView>, x: OpView)
    requires
        ops_sorted(s),
        s.len() > 0,
        s.contains(x),
    ensures
        !op_lt(s.last(), x),
{
    let i = choose|i: int| 0 <= i < s.len() && s[i] == x;
    if i < s.len() - 1 {
        assert(!op_lt(s[s.len() - 1], s[i]));
    } else {
        lemma_seq_lt_irrefl(x.id);
    }
}

proof fn lemma_sorted_drop_last(s: Seq<OpView>)
    requires
        ops_sorted(s),
        s.len() > 0,
    ensures
        ops_sorted(s.drop_last()),
{
    let d = s.drop_last();
    assert forall|i: int, j: int| 0 <= i < j < d.len() implies !op_lt(#[trigger] d[j], #[trigger] d[i]) by {
        assert(d[i] == s[i] && d[j] == s[j]);
    }
}

/// Two causally ordered arrangements of the same ops are the same sequence,
/// when a stamp identifies an op.
proof fn lemma_sorted_unique(a: Seq<OpView>, b: Seq<OpView>)
    requires
        ops_sorted(a),
        ops_sorted(b),
        a.to_multiset() == b.to_multiset(),
        stamps_identify(a),
    ensures
        a == b,
    decreases a.len(),
{
    broadcast use vstd::seq_lib::to_multiset_build, vstd::seq_lib::to_multiset_len,
        vstd::seq_lib::to_multiset_contains;

    assert(a.len() == a.to_multiset().len());
    assert(b.len() == b.to_multiset().len());
    if a.len() == 0 {
        assert(a =~= b);
    } else {
        let x = a.last();
        let y = b.last();
        assert(a.contains(x)) by {
            assert(a[a.len() - 1] == x);
        }
        assert(b.contains(y)) by {
            assert(b[b.len() - 1] == y);
        }
        assert(a.to_multiset().count(x) > 0);
        assert(b.contains(x));
        assert(b.to_multiset().count(y) > 0);
        assert(a.contains(y));
        lemma_sorted_max(a, y);
        lemma_sorted_max(b, x);
        lemma_stamp_total(x.lamport, x.id, y.lamport, y.id);
        let j = choose|j: int| 0 <= j < a.len() && a[j] == y;
        assert(a[j] == a[a.len() - 1]);
        assert(x == y);
        let ad = a.drop_last();
        let bd = b.drop_last();
        assert(a =~= ad.push(x));
        assert(b =~= bd.push(x));
        assert(ad.to_multiset() =~= a.to_multiset().remove(x));
        assert(bd.to_multiset() =~= b.to_multiset().remove(x));
        lemma_sorted_drop_last(a);
        lemma_sorted_drop_last(b);
        assert(stamps_identify(ad)) by {
            assert forall|i: int, k: int|
                0 <= i < ad.len() && 0 <= k < ad.len() && (#[trigger] ad[i]).lamport == (
                #[trigger] ad[k]).lamport && ad[i].id == ad[k].id implies ad[i] == ad[k] by {
                assert(ad[i] == a[i] && ad[k] == a[k]);
            }
        }
        lemma_sorted_unique(ad, bd);
    }
}

proof fn lemma_identify_perm(s: Seq<OpView>, t: Seq<OpView>)
    requires
        s.to_multiset() == t.to_multiset(),
        stamps_identify(s),
    ensures
        stamps_identify(t),
{
    broadcast use vstd::seq_lib::to_multiset_contains;

    assert forall|i: int, j: int|
        0 <= i < t.len() && 0 <= j < t.len() && (#[trigger] t[i]).lamport == (
        #[trigger] t[j]).lamport && t[i].id == t[j].id implies t[i] == t[j] by {
        assert(t.contains(t[i]) && t.contains(t[j]));
        assert(t.to_multiset().count(t[i]) > 0 && t.to_multiset().count(t[j]) > 0);
        assert(s.contains(t[i]) && s.contains(t[j]));
        let a = choose|a: int| 0 <= a < s.len() && s[a] == t[i];
        let b = choose|b: int| 0 <= b < s.len() && s[b] == t[j];
        assert(s[a].lamport == s[b].lamport && s[a].id == s[b].id);
    }
}

/// Law: folding an issue's op log gives the same issue whatever order the
/// ops are read in (any rearrangement of the same ops), as long as a
/// `(lamport, op-id)` stamp identifies an op. Ops are applied in causal
/// order, so two clones that hold the same ops compute the same state.
pub proof fn law_fold_order_independent(uuid: Seq<char>, s1: Seq<OpView>, s2: Seq<OpView>)
    requires
        s1.to_multiset() == s2.to_multiset(),
        stamps_identify(s1),
    ensures
        spec_fold(uuid, s1) == spec_fold(uuid, s2),
{
    broadcast use vstd::seq_lib::to_multiset_len;

    lemma_sort_sorted(s1);
    lemma_sort_sorted(s2);
    lemma_sort_perm(s1);
    lemma_sort_perm(s2);
    lemma_identify_perm(s1, sort_ops(s1));
    lemma_sorted_unique(sort_ops(s1), sort_ops(s2));
    assert(s1.len() == s1.to_multiset().len());
    assert(s2.len() == s2.to_multiset().len());
}


/// Law: comments are a grow-only log. Applying any operation keeps every
/// comment already in the log, in its place; a comment operation adds at
/// most one comment, at the end, and no other operation adds one.
pub proof fn law_comment_log_grows(st: IssueView, op: OpView)
    ensures
        st.comments.len() <= apply_op(st, op).comments.len() <= st.comments.len() + 1,
        apply_op(st, op).comments.take(st.comments.len() as int) == st.comments,
        !(op.kind is Comment) ==> apply_op(st, op).comments == st.comments,
{
    let after = apply_op(st, op).comments;
    assert(after.take(st.comments.len() as int) =~= st.comments);
}

/// Law: folding operations that come later in causal order only extends the
/// comment log: the comments of the earlier operations stay, in order, at
/// its front.
pub proof fn law_comment_log_extends(st: IssueView, s: Seq<OpView>, t: Seq<OpView>)
    ensures
        fold_ops(st, s).comments.len() <= fold_ops(st, s + t).comments.len(),
        fold_ops(st, s + t).comments.take(fold_ops(st, s).comments.len() as int) == fold_ops(
            st,
            s,
        ).comments,
    decreases t.len(),
{
    if t.len() == 0 {
        assert(s + t =~= s);
        assert(fold_ops(st, s).comments.take(fold_ops(st, s).comments.len() as int) =~= fold_ops(
            st,
            s,
        ).comments);
    } else {
        let t0 = t.drop_last();
        law_comment_log_extends(st, s, t0);
        assert((s + t).drop_last() =~= s + t0);
        assert((s + t).last() == t.last());
        let mid = fold_ops(st, s + t0);
        law_comment_log_grows(mid, t.last());
        let a = fold_ops(st, s).comments;
        let b = mid.comments;
        let c = fold_ops(st, s + t).comments;
        assert(c.take(b.len() as int) == b);
        assert(c.take(a.len() as int) =~= b.take(a.len() as int));
    }
}


// ---------------------------------------------------------------------------
// The assignee is written last-writer-wins
// ---------------------------------------------------------------------------

/// An op that sets the assignee outright: a set-assignee, or a create that
/// names one.
pub open spec fn writes_assignee(op: OpView) -> bool {
    op.kind is SetAssignee || (op.kind matches KindView::Create { assignee, .. } && assignee is Some)
}

/// An op that changes the assignee set in any way.
pub open spec fn touches_assignees(op: OpView) -> bool {
    writes_assignee(op) || op.kind is AddAssignee || op.kind is RemoveAssignee
}

/// The assignee set that an outright write leaves.
pub open spec fn assignees_written(op: OpView) -> Map<Seq<char>, Seq<Seq<char>>> {
    match op.kind {
        KindView::SetAssignee { assignee: Some(a) } => set_add(Map::empty(), a, op.id),
        KindView::Create { assignee: Some(a), .. } => set_add(Map::empty(), a, op.id),
        _ => Map::empty(),
    }
}

/// Folding ops after an outright assignee write that touch the assignees no
/// more (or repeat that write) leaves the set that write left.
proof fn lemma_fold_last_assignee_write(st: IssueView, s: Seq<OpView>, k: int)
    requires
        0 <= k < s.len(),
        writes_assignee(s[k]),
        forall|j: int| k < j < s.len() ==> !touches_assignees(#[trigger] s[j]) || s[j] == s[k],
    ensures
        fold_ops(st, s).assignees == assignees_written(s[k]),
    decreases s.len(),
{
    let t = s.drop_last();
    if k == s.len() - 1 || s.last() == s[k] {
        assert(s.last() == s[k]);
    } else {
        assert(!touches_assignees(s[s.len() - 1]));
        assert forall|j: int| k < j < t.len() implies !touches_assignees(#[trigger] t[j]) || t[j]
            == t[k] by {
            assert(t[j] == s[j]);
        }
        lemma_fold_last_assignee_write(st, t, k);
    }
}

/// Law: the assignee is a last-writer-wins register. When an issue's log
/// holds no op that adds or removes a single assignee, the folded issue's
/// assignee set is the one left by the outright assignee write (a
/// set-assignee, or a create naming one) with the greatest `(lamport,
/// op-id)` stamp, whatever order the ops are read in, as long as a stamp
/// identifies an op.
pub proof fn law_assignee_greatest_write_wins(uuid: Seq<char>, ops: Seq<OpView>, w: OpView)
    requires
        spec_fold(uuid, ops) is Some,
        stamps_identify(ops),
        ops.contains(w),
        writes_assignee(w),
        forall|j: int|
            0 <= j < ops.len() ==> !(#[trigger] ops[j].kind is AddAssignee)
                && !(ops[j].kind is RemoveAssignee),
        forall|j: int|
            0 <= j < ops.len() && writes_assignee(#[trigger] ops[j]) ==> !op_lt(w, ops[j]),
    ensures
        spec_fold(uuid, ops)->Some_0.assignees == assignees_written(w),
{
    broadcast use vstd::seq_lib::to_multiset_contains;

    let t = sort_ops(ops);
    lemma_sort_sorted(ops);
    lemma_sort_perm(ops);
    lemma_identify_perm(ops, t);
    assert(t.to_multiset().count(w) > 0);
    assert(t.contains(w));
    let k = choose|k: int| 0 <= k < t.len() && t[k] == w;
    assert forall|j: int| k < j < t.len() implies !touches_assignees(#[trigger] t[j]) || t[j]
        == t[k] by {
        assert(t.contains(t[j]));
        assert(t.to_multiset().count(t[j]) > 0);
        assert(ops.contains(t[j]));
        let q = choose|q: int| 0 <= q < ops.len() && ops[q] == t[j];
        assert(!(ops[q].kind is AddAssignee) && !(ops[q].kind is RemoveAssignee));
        if writes_assignee(t[j]) {
            assert(!op_lt(w, ops[q]));
            assert(!op_lt(t[j], t[k]));
            lemma_stamp_total(w.lamport, w.id, t[j].lamport, t[j].id);
        }
    }
    let c = crate::model::find_create(t);
    let init = crate::model::initial_issue(uuid, t[c], ops.len());
    lemma_fold_last_assignee_write(init, t, k);
}


// ---------------------------------------------------------------------------
// The registers are last-writer-wins over the whole log
// ---------------------------------------------------------------------------

/// The title that an op writes: a create's or a set-title's.
pub open spec fn title_written(op: OpView) -> Option<Seq<char>> {
    match op.kind {
        KindView::Create { title, .. } => Some(title),
        KindView::SetTitle { title } => Some(title),
        _ => None,
    }
}

/// The description that an op writes: a create's or a set-description's.
pub open spec fn description_written(op: OpView) -> Option<Seq<char>> {
    match op.kind {
        KindView::Create { description, .. } => Some(description),
        KindView::SetDescription { description } => Some(description),
        _ => None,
    }
}

/// The state that an op writes: open for a create, else a set-state's.
pub open spec fn state_written(op: OpView) -> Option<StateValView> {
    match op.kind {
        KindView::Create { .. } => Some(default_state_view()),
        KindView::SetState { state, reason, fixed_by } => Some(StateValView { state, reason, fixed_by }),
        _ => None,
    }
}

/// The priority that an op writes: a set-priority's (clearing it, or not),
/// or a create's that names one.
pub open spec fn priority_written(op: OpView) -> Option<Option<Seq<char>>> {
    match op.kind {
        KindView::Create { priority: Some(p), .. } => Some(Some(p)),
        KindView::SetPriority { priority } => Some(priority),
        _ => None,
    }
}

/// The archived flag that an op writes.
pub open spec fn archived_written(op: OpView) -> Option<bool> {
    match op.kind {
        KindView::SetArchived { archived } => Some(archived),
        _ => None,
    }
}

/// `reg` is a register of the issue that each op either leaves alone or
/// writes the value `written` gives.
pub open spec fn register_of<V>(
    reg: spec_fn(IssueView) -> LwwView<V>,
    written: spec_fn(OpView) -> Option<V>,
) -> bool {
    forall|x: IssueView, op: OpView|
        #[trigger] reg(apply_op(x, op)) == match written(op) {
            Some(v) => reg(x).applied(v, op.lamport, op.id),
            None => reg(x),
        }
}

/// Folding from an unset register: it stays unset while nothing writes it;
/// else it holds the value and stamp of one of the writes, and no write
/// has a greater stamp.
proof fn lemma_fold_register<V>(
    reg: spec_fn(IssueView) -> LwwView<V>,
    written: spec_fn(OpView) -> Option<V>,
    st: IssueView,
    s: Seq<OpView>,
)
    requires
        register_of(reg, written),
        !reg(st).set,
    ensures
        ({
            let r = reg(fold_ops(st, s));
            &&& (forall|j: int| 0 <= j < s.len() ==> written(#[trigger] s[j]) is None) ==> r == reg(st)
            &&& r.set ==> exists|j: int|
                0 <= j < s.len() && written(#[trigger] s[j]) == Some(r.value) && s[j].lamport
                    == r.lamport && s[j].id == r.tiebreak
            &&& forall|j: int|
                0 <= j < s.len() && written(#[trigger] s[j]) is Some ==> r.set && !stamp_lt(
                    r.lamport,
                    r.tiebreak,
                    s[j].lamport,
                    s[j].id,
                )
        }),
    decreases s.len(),
{
    if s.len() > 0 {
        let t = s.drop_last();
        let x = s.last();
        let n = s.len() - 1;
        lemma_fold_register(reg, written, st, t);
        let r0 = reg(fold_ops(st, t));
        let r = reg(fold_ops(st, s));
        assert(r == match written(x) {
            Some(v) => r0.applied(v, x.lamport, x.id),
            None => r0,
        });
        assert forall|j: int| 0 <= j < n implies s[j] == #[trigger] t[j] by {}
        match written(x) {
            None => {
                if r.set {
                    let j = choose|j: int|
                        0 <= j < t.len() && written(#[trigger] t[j]) == Some(r0.value) && t[j].lamport
                            == r0.lamport && t[j].id == r0.tiebreak;
                    assert(s[j] == t[j]);
                }
                assert forall|j: int|
                    0 <= j < s.len() && written(#[trigger] s[j]) is Some implies r.set && !stamp_lt(
                    r.lamport,
                    r.tiebreak,
                    s[j].lamport,
                    s[j].id,
                ) by {
                    assert(j < n);
                    assert(written(t[j]) is Some);
                }
            },
            Some(v) => {
                if r0.wins(x.lamport, x.id) {
                    assert(written(s[n]) == Some(r.value));
                    assert forall|j: int|
                        0 <= j < s.len() && written(#[trigger] s[j]) is Some implies r.set
                        && !stamp_lt(r.lamport, r.tiebreak, s[j].lamport, s[j].id) by {
                        if j < n {
                            assert(written(t[j]) is Some);
                            assert(r0.set);
                            if stamp_lt(x.lamport, x.id, s[j].lamport, s[j].id) {
                                lemma_stamp_trans(
                                    r0.lamport,
                                    r0.tiebreak,
                                    x.lamport,
                                    x.id,
                                    s[j].lamport,
                                    s[j].id,
                                );
                            }
                        } else {
                            lemma_seq_lt_irrefl(x.id);
                        }
                    }
                } else {
                    assert(r == r0 && r0.set);
                    let j = choose|j: int|
                        0 <= j < t.len() && written(#[trigger] t[j]) == Some(r0.value) && t[j].lamport
                            == r0.lamport && t[j].id == r0.tiebreak;
                    assert(s[j] == t[j]);
                    assert forall|j: int|
                        0 <= j < s.len() && written(#[trigger] s[j]) is Some implies r.set
                        && !stamp_lt(r.lamport, r.tiebreak, s[j].lamport, s[j].id) by {
                        if j < n {
                            assert(written(t[j]) is Some);
                        }
                    }
                }
            },
        }
    }
}

/// Over the whole log: the register read from the folded issue holds the
/// value of the write with the greatest stamp.
proof fn lemma_greatest_write_wins<V>(
    reg: spec_fn(IssueView) -> LwwView<V>,
    written: spec_fn(OpView) -> Option<V>,
    uuid: Seq<char>,
    ops: Seq<OpView>,
    w: OpView,
)
    requires
        register_of(reg, written),
        forall|c: OpView, n: nat| !(#[trigger] reg(crate::model::initial_issue(uuid, c, n))).set,
        spec_fold(uuid, ops) is Some,
        stamps_identify(ops),
        ops.contains(w),
        written(w) is Some,
        forall|j: int| 0 <= j < ops.len() && written(#[trigger] ops[j]) is Some ==> !op_lt(w, ops[j]),
    ensures
        Some(reg(spec_fold(uuid, ops)->Some_0).value) == written(w),
{
    broadcast use vstd::seq_lib::to_multiset_contains;

    let t = sort_ops(ops);
    lemma_sort_perm(ops);
    lemma_identify_perm(ops, t);
    assert(t.to_multiset().count(w) > 0);
    let k = choose|k: int| 0 <= k < t.len() && t[k] == w;
    let c = crate::model::find_create(t);
    let init = crate::model::initial_issue(uuid, t[c], ops.len());
    lemma_fold_register(reg, written, init, t);
    let r = reg(fold_ops(init, t));
    assert(written(t[k]) is Some);
    let j = choose|j: int|
        0 <= j < t.len() && written(#[trigger] t[j]) == Some(r.value) && t[j].lamport == r.lamport
            && t[j].id == r.tiebreak;
    assert(t.contains(t[j]));
    assert(t.to_multiset().count(t[j]) > 0);
    assert(ops.contains(t[j]));
    let q = choose|q: int| 0 <= q < ops.len() && ops[q] == t[j];
    assert(!op_lt(w, ops[q]));
    lemma_stamp_total(w.lamport, w.id, r.lamport, r.tiebreak);
}

/// Law: the title is last-writer-wins over the log: the folded issue's
/// title is the one written (by the create or a set-title) with the greatest
/// `(lamport, op-id)` stamp, whatever order the ops are read in, as long as a
/// stamp identifies an op.
pub proof fn law_title_greatest_write_wins(uuid: Seq<char>, ops: Seq<OpView>, w: OpView)
    requires
        spec_fold(uuid, ops) is Some,
        stamps_identify(ops),
        ops.contains(w),
        title_written(w) is Some,
        forall|j: int|
            0 <= j < ops.len() && title_written(#[trigger] ops[j]) is Some ==> !op_lt(w, ops[j]),
    ensures
        Some(spec_fold(uuid, ops)->Some_0.title.value) == title_written(w),
{
    let reg = |x: IssueView| x.title;
    let written = |op: OpView| title_written(op);
    assert(register_of(reg, written));
    lemma_greatest_write_wins(reg, written, uuid, ops, w);
}

/// Law: the description is last-writer-wins over the log, as the title is.
pub proof fn law_description_greatest_write_wins(uuid: Seq<char>, ops: Seq<OpView>, w: OpView)
    requires
        spec_fold(uuid, ops) is Some,
        stamps_identify(ops),
        ops.contains(w),
        description_written(w) is Some,
        forall|j: int|
            0 <= j < ops.len() && description_written(#[trigger] ops[j]) is Some ==> !op_lt(
                w,
                ops[j],
            ),
    ensures
        Some(spec_fold(uuid, ops)->Some_0.description.value) == description_written(w),
{
    let reg = |x: IssueView| x.description;
    let written = |op: OpView| description_written(op);
    assert(register_of(reg, written));
    lemma_greatest_write_wins(reg, written, uuid, ops, w);
}

/// Law: the state (with its reason and fixing commit) is last-writer-wins
/// over the log; the create writes "open".
pub proof fn law_state_greatest_write_wins(uuid: Seq<char>, ops: Seq<OpView>, w: OpView)
    requires
        spec_fold(uuid, ops) is Some,
        stamps_identify(ops),
        ops.contains(w),
        state_written(w) is Some,
        forall|j: int|
            0 <= j < ops.len() && state_written(#[trigger] ops[j]) is Some ==> !op_lt(w, ops[j]),
    ensures
        Some(spec_fold(uuid, ops)->Some_0.state.value) == state_written(w),
{
    let reg = |x: IssueView| x.state;
    let written = |op: OpView| state_written(op);
    assert(register_of(reg, written));
    lemma_greatest_write_wins(reg, written, uuid, ops, w);
}

/// Law: the priority is last-writer-wins over the log; a create that names
/// no priority does not write it, and a set-priority may clear it.
pub proof fn law_priority_greatest_write_wins(uuid: Seq<char>, ops: Seq<OpView>, w: OpView)
    requires
        spec_fold(uuid, ops) is Some,
        stamps_identify(ops),
        ops.contains(w),
        priority_written(w) is Some,
        forall|j: int|
            0 <= j < ops.len() && priority_written(#[trigger] ops[j]) is Some ==> !op_lt(
                w,
                ops[j],
            ),
    ensures
        Some(spec_fold(uuid, ops)->Some_0.priority.value) == priority_written(w),
{
    let reg = |x: IssueView| x.priority;
    let written = |op: OpView| priority_written(op);
    assert(register_of(reg, written));
    lemma_greatest_write_wins(reg, written, uuid, ops, w);
}

/// Law: the archived flag is last-writer-wins over the log.
pub proof fn law_archived_greatest_write_wins(uuid: Seq<char>, ops: Seq<OpView>, w: OpView)
    requires
        spec_fold(uuid, ops) is Some,
        stamps_identify(ops),
        ops.contains(w),
        archived_written(w) is Some,
        forall|j: int|
            0 <= j < ops.len() && archived_written(#[trigger] ops[j]) is Some ==> !op_lt(w, ops[j]),
    ensures
        Some(spec_fold(uuid, ops)->Some_0.archived.value) == archived_written(w),
{
    let reg = |x: IssueView| x.archived;
    let written = |op: OpView| archived_written(op);
    assert(register_of(reg, written));
    lemma_greatest_write_wins(reg, written, uuid, ops, w);
}


// ---------------------------------------------------------------------------
// One comment per comment operation
// ---------------------------------------------------------------------------

/// The comment that a comment op records: its op-id, actor, text, clock,
/// time and git author.
pub open spec fn comment_of(op: OpView) -> CommentView {
    CommentView {
        id: op.id,
        actor: op.actor,
        text: match op.kind {
            KindView::Comment { text } => text,
            _ => Seq::empty(),
        },
        lamport: op.lamport,
        timestamp: op.timestamp,
        author: op.author,
    }
}

/// No other comment op of `s` shares `w`'s op-id.
pub open spec fn sole_comment_with_id(s: Seq<OpView>, w: OpView) -> bool {
    forall|j: int| 0 <= j < s.len() && (#[trigger] s[j]).kind is Comment && s[j].id == w.id ==> s[j] == w
}

/// Every comment that folding adds is the record of one of the comment ops.
proof fn lemma_fold_comment_origin(st: IssueView, s: Seq<OpView>)
    requires
        st.comments.len() == 0,
    ensures
        forall|i: int|
            0 <= i < fold_ops(st, s).comments.len() ==> exists|j: int|
                0 <= j < s.len() && s[j].kind is Comment && #[trigger] fold_ops(st, s).comments[i]
                    == comment_of(s[j]),
    decreases s.len(),
{
    if s.len() > 0 {
        let t = s.drop_last();
        let x = s.last();
        let n = s.len() - 1;
        lemma_fold_comment_origin(st, t);
        let a = fold_ops(st, t);
        let cs = fold_ops(st, s).comments;
        law_comment_log_grows(a, x);
        assert forall|i: int| 0 <= i < cs.len() implies exists|j: int|
            0 <= j < s.len() && s[j].kind is Comment && #[trigger] cs[i] == comment_of(s[j]) by {
            if i < a.comments.len() {
                assert(cs[i] == cs.take(a.comments.len() as int)[i]);
                assert(cs[i] == a.comments[i]);
                let j = choose|j: int|
                    0 <= j < t.len() && t[j].kind is Comment && a.comments[i] == comment_of(t[j]);
                assert(s[j] == t[j]);
            } else {
                assert(x.kind is Comment);
                assert(cs[i] == comment_of(s[n]));
            }
        }
    }
}

/// A comment op whose op-id no other comment op carries leaves its record in
/// the folded comment log.
proof fn lemma_fold_comment_present(st: IssueView, s: Seq<OpView>, j: int)
    requires
        st.comments.len() == 0,
        0 <= j < s.len(),
        s[j].kind is Comment,
        sole_comment_with_id(s, s[j]),
    ensures
        fold_ops(st, s).comments.contains(comment_of(s[j])),
    decreases s.len(),
{
    let t = s.drop_last();
    let x = s.last();
    let n = s.len() - 1;
    let a = fold_ops(st, t);
    let cs = fold_ops(st, s).comments;
    law_comment_log_grows(a, x);
    if j < n {
        assert forall|k: int|
            0 <= k < t.len() && (#[trigger] t[k]).kind is Comment && t[k].id == t[j].id implies t[k]
            == t[j] by {
            assert(s[k] == t[k]);
        }
        lemma_fold_comment_present(st, t, j);
        let i = choose|i: int| 0 <= i < a.comments.len() && a.comments[i] == comment_of(t[j]);
        assert(cs.take(a.comments.len() as int)[i] == cs[i]);
    } else {
        if a.comments.len() > 0 && a.comments.last().id == x.id {
            lemma_fold_comment_origin(st, t);
            let last = a.comments.len() - 1;
            assert(a.comments[last] == a.comments.last());
            let k = choose|k: int|
                0 <= k < t.len() && t[k].kind is Comment && #[trigger] a.comments[last]
                    == comment_of(t[k]);
            assert(s[k] == t[k]);
            assert(s[k] == x);
            assert(cs == a.comments);
            assert(cs[last] == comment_of(x));
        } else {
            assert(cs.last() == comment_of(x));
            assert(cs[cs.len() - 1] == comment_of(x));
        }
    }
}

/// Law: a comment's identity is its op-id. Folding a log keeps, for every
/// comment op whose op-id no other comment op of the log carries, that
/// op's comment (its id, actor, text, clock and author), whatever the other
/// comments say; and every comment of the folded issue is the comment of
/// one of the log's comment ops.
pub proof fn law_comment_identity_is_the_op_id(uuid: Seq<char>, ops: Seq<OpView>, w: OpView)
    requires
        spec_fold(uuid, ops) is Some,
        ops.contains(w),
        w.kind is Comment,
        sole_comment_with_id(ops, w),
    ensures
        spec_fold(uuid, ops)->Some_0.comments.contains(comment_of(w)),
        forall|i: int|
            0 <= i < spec_fold(uuid, ops)->Some_0.comments.len() ==> exists|j: int|
                0 <= j < ops.len() && ops[j].kind is Comment
                    && #[trigger] spec_fold(uuid, ops)->Some_0.comments[i] == comment_of(ops[j]),
{
    broadcast use vstd::seq_lib::to_multiset_contains;

    let t = sort_ops(ops);
    lemma_sort_perm(ops);
    assert(t.to_multiset().count(w) > 0);
    let k = choose|k: int| 0 <= k < t.len() && t[k] == w;
    assert forall|q: int|
        0 <= q < t.len() && (#[trigger] t[q]).kind is Comment && t[q].id == t[k].id implies t[q]
        == t[k] by {
        assert(t.contains(t[q]));
        assert(t.to_multiset().count(t[q]) > 0);
        assert(ops.contains(t[q]));
        let p = choose|p: int| 0 <= p < ops.len() && ops[p] == t[q];
        assert(ops[p].kind is Comment && ops[p].id == w.id);
    }
    let c = crate::model::find_create(t);
    let init = crate::model::initial_issue(uuid, t[c], ops.len());
    lemma_fold_comment_present(init, t, k);
    lemma_fold_comment_origin(init, t);
    let cs = fold_ops(init, t).comments;
    assert forall|i: int| 0 <= i < cs.len() implies exists|j: int|
        0 <= j < ops.len() && ops[j].kind is Comment && #[trigger] cs[i] == comment_of(ops[j]) by {
        let q = choose|q: int| 0 <= q < t.len() && t[q].kind is Comment && cs[i] == comment_of(t[q]);
        assert(t.contains(t[q]));
        assert(t.to_multiset().count(t[q]) > 0);
        assert(ops.contains(t[q]));
        let p = choose|p: int| 0 <= p < ops.len() && ops[p] == t[q];
        assert(ops[p].kind is Comment && cs[i] == comment_of(ops[p]));
    }
}

/// Law: two comment ops with different op-ids, each the only comment op of
/// the log with its op-id, give two distinct comments of the folded issue,
/// whatever their texts.
pub proof fn law_distinct_comment_ids_give_two_comments(
    uuid: Seq<char>,
    ops: Seq<OpView>,
    a: OpView,
    b: OpView,
)
    requires
        spec_fold(uuid, ops) is Some,
        ops.contains(a),
        ops.contains(b),
        a.kind is Comment,
        b.kind is Comment,
        a.id != b.id,
        sole_comment_with_id(ops, a),
        sole_comment_with_id(ops, b),
    ensures
        ({
            let cs = spec_fold(uuid, ops)->Some_0.comments;
            exists|i: int, k: int|
                0 <= i < cs.len() && 0 <= k < cs.len() && i != k && cs[i] == comment_of(a) && cs[k]
                    == comment_of(b)
        }),
{
    law_comment_identity_is_the_op_id(uuid, ops, a);
    law_comment_identity_is_the_op_id(uuid, ops, b);
    let cs = spec_fold(uuid, ops)->Some_0.comments;
    let i = choose|i: int| 0 <= i < cs.len() && cs[i] == comment_of(a);
    let k = choose|k: int| 0 <= k < cs.len() && cs[k] == comment_of(b);
    assert(cs[i].id != cs[k].id);
}


/// The comment stamps strictly ascend.
pub open spec fn comments_ascend(cs: Seq<CommentView>) -> bool {
    forall|a: int, b: int|
        0 <= a < b < cs.len() ==> stamp_lt(
            (#[trigger] cs[a]).lamport,
            cs[a].id,
            (#[trigger] cs[b]).lamport,
            cs[b].id,
        )
}

/// Folding ops in causal order, with stamps that identify ops, lists the
/// comments in strictly ascending `(lamport, op-id)` order.
proof fn lemma_fold_comments_ascend(st: IssueView, s: Seq<OpView>)
    requires
        st.comments.len() == 0,
        ops_sorted(s),
        stamps_identify(s),
    ensures
        comments_ascend(fold_ops(st, s).comments),
    decreases s.len(),
{
    if s.len() > 0 {
        let t = s.drop_last();
        let x = s.last();
        let n = s.len() - 1;
        assert(ops_sorted(t)) by {
            assert forall|i: int, j: int| 0 <= i < j < t.len() implies !op_lt(
                #[trigger] t[j],
                #[trigger] t[i],
            ) by {
                assert(t[i] == s[i] && t[j] == s[j]);
            }
        }
        assert(stamps_identify(t)) by {
            assert forall|i: int, j: int|
                0 <= i < t.len() && 0 <= j < t.len() && (#[trigger] t[i]).lamport == (
                #[trigger] t[j]).lamport && t[i].id == t[j].id implies t[i] == t[j] by {
                assert(t[i] == s[i] && t[j] == s[j]);
            }
        }
        lemma_fold_comments_ascend(st, t);
        lemma_fold_comment_origin(st, t);
        let a = fold_ops(st, t);
        let ca = a.comments;
        let cs = fold_ops(st, s).comments;
        law_comment_log_grows(a, x);
        if cs.len() == ca.len() {
            assert(cs.take(ca.len() as int) == ca);
            assert(cs =~= ca);
        } else {
            assert(x.kind is Comment);
            assert(cs =~= ca.push(comment_of(x)));
            // Every earlier comment is that of an earlier op, so its stamp is
            // not above `x`'s; equal stamps would make it `x`'s own comment,
            // which the log would have kept instead.
            assert forall|i: int| 0 <= i < ca.len() implies stamp_lt(
                (#[trigger] ca[i]).lamport,
                ca[i].id,
                x.lamport,
                x.id,
            ) by {
                let j = choose|j: int|
                    0 <= j < t.len() && t[j].kind is Comment && #[trigger] ca[i] == comment_of(t[j]);
                assert(s[j] == t[j]);
                assert(!op_lt(s[n], s[j]));
                lemma_stamp_total(t[j].lamport, t[j].id, x.lamport, x.id);
                if t[j].lamport == x.lamport && t[j].id == x.id {
                    let l = ca.len() - 1;
                    let jl = choose|jl: int|
                        0 <= jl < t.len() && t[jl].kind is Comment && #[trigger] ca[l]
                            == comment_of(t[jl]);
                    assert(s[jl] == t[jl]);
                    assert(!op_lt(s[n], s[jl]));
                    if i < l {
                        assert(stamp_lt(ca[i].lamport, ca[i].id, ca[l].lamport, ca[l].id));
                    }
                    lemma_stamp_total(t[jl].lamport, t[jl].id, x.lamport, x.id);
                    if stamp_lt(t[jl].lamport, t[jl].id, x.lamport, x.id) && i < l {
                        lemma_stamp_trans(
                            x.lamport,
                            x.id,
                            ca[l].lamport,
                            ca[l].id,
                            x.lamport,
                            x.id,
                        );
                        lemma_stamp_asym(x.lamport, x.id, x.lamport, x.id);
                    }
                    assert(s[jl] == s[n]);
                    assert(ca.last() == ca[l]);
                    assert(ca.last().id == x.id);
                    assert(false);
                }
            }
            assert forall|p: int, q: int| 0 <= p < q < cs.len() implies stamp_lt(
                (#[trigger] cs[p]).lamport,
                cs[p].id,
                (#[trigger] cs[q]).lamport,
                cs[q].id,
            ) by {
                if q < ca.len() {
                    assert(cs[p] == ca[p] && cs[q] == ca[q]);
                } else {
                    assert(cs[p] == ca[p]);
                    assert(cs[q] == comment_of(x));
                }
            }
        }
    }
}

/// Law: the comments of a folded issue are listed in ascending
/// `(lamport, op-id)` order, each stamp after the one before, whatever order
/// the ops are read in, as long as a stamp identifies an op.
pub proof fn law_comments_in_causal_order(uuid: Seq<char>, ops: Seq<OpView>)
    requires
        spec_fold(uuid, ops) is Some,
        stamps_identify(ops),
    ensures
        comments_ascend(spec_fold(uuid, ops)->Some_0.comments),
{
    let t = sort_ops(ops);
    lemma_sort_sorted(ops);
    lemma_sort_perm(ops);
    lemma_identify_perm(ops, t);
    let c = crate::model::find_create(t);
    let init = crate::model::initial_issue(uuid, t[c], ops.len());
    lemma_fold_comments_ascend(init, t);
}


// ---------------------------------------------------------------------------
// What each set operation does to the issue
// ---------------------------------------------------------------------------

proof fn lemma_add_all_present(m: Map<Seq<char>, Seq<Seq<char>>>, ls: Seq<Seq<char>>, t: Seq<char>)
    ensures
        forall|i: int| 0 <= i < ls.len() ==> set_present(crate::model::add_all(m, ls, t), #[trigger] ls[i]),
        forall|x: Seq<char>|
            !ls.contains(x) ==> set_present(crate::model::add_all(m, ls, t), x) == set_present(m, x),
    decreases ls.len(),
{
    if ls.len() > 0 {
        let d = ls.drop_last();
        lemma_add_all_present(m, d, t);
        let a = crate::model::add_all(m, d, t);
        law_orset_add_present(a, ls.last(), t);
        assert forall|i: int| 0 <= i < ls.len() implies set_present(
            crate::model::add_all(m, ls, t),
            #[trigger] ls[i],
        ) by {
            if i < ls.len() - 1 {
                assert(ls[i] == d[i]);
                if ls[i] != ls.last() {
                    assert(set_present(set_add(a, ls.last(), t), ls[i]) == set_present(a, ls[i]));
                }
            }
        }
        assert forall|x: Seq<char>| !ls.contains(x) implies set_present(
            crate::model::add_all(m, ls, t),
            x,
        ) == set_present(m, x) by {
            assert(x != ls[ls.len() - 1]);
            if d.contains(x) {
                let q = choose|q: int| 0 <= q < d.len() && d[q] == x;
                assert(ls[q] == x);
            }
        }
    }
}

/// Law: labels are an add-wins set. An added label is present after its
/// op, a removed label absent, the labels of a create present; no other
/// label changes, and no other operation touches the labels.
pub proof fn law_label_ops(st: IssueView, op: OpView, x: Seq<char>)
    ensures
        ({
            let after = apply_op(st, op).labels;
            &&& op.kind matches KindView::AddLabel { label } ==> set_present(after, label) && (x
                != label ==> set_present(after, x) == set_present(st.labels, x))
            &&& op.kind matches KindView::RemoveLabel { label } ==> !set_present(after, label) && (x
                != label ==> set_present(after, x) == set_present(st.labels, x))
            &&& op.kind matches KindView::Create { labels, .. } ==> (forall|i: int|
                0 <= i < labels.len() ==> set_present(after, #[trigger] labels[i])) && (!labels.contains(
                x,
            ) ==> set_present(after, x) == set_present(st.labels, x))
            &&& !(op.kind is AddLabel) && !(op.kind is RemoveLabel) && !(op.kind is Create) ==> after
                == st.labels
        }),
{
    match op.kind {
        KindView::AddLabel { label } => {
            law_orset_add_present(st.labels, label, op.id);
        },
        KindView::RemoveLabel { label } => {
            law_orset_remove_absent(st.labels, label, x);
        },
        KindView::Create { labels, .. } => {
            lemma_add_all_present(st.labels, labels, op.id);
        },
        _ => {},
    }
}

/// Law: what each op does to the assignees. An added assignee is present
/// and a removed one absent, no other changing; a set-assignee, or a create
/// naming one, leaves exactly that assignee, and a set-assignee naming none
/// leaves none; no other operation touches the assignees.
pub proof fn law_assignee_ops(st: IssueView, op: OpView, x: Seq<char>)
    ensures
        ({
            let after = apply_op(st, op).assignees;
            &&& op.kind matches KindView::AddAssignee { assignee } ==> set_present(after, assignee) && (x
                != assignee ==> set_present(after, x) == set_present(st.assignees, x))
            &&& op.kind matches KindView::RemoveAssignee { assignee } ==> !set_present(after, assignee)
                && (x != assignee ==> set_present(after, x) == set_present(st.assignees, x))
            &&& op.kind matches KindView::SetAssignee { assignee: Some(a) } ==> set_present(after, a)
                && (x != a ==> !set_present(after, x))
            &&& op.kind matches KindView::Create { assignee: Some(a), .. } ==> set_present(after, a)
                && (x != a ==> !set_present(after, x))
            &&& op.kind == (KindView::SetAssignee { assignee: None }) ==> !set_present(after, x)
            &&& !touches_assignees(op) ==> after == st.assignees
        }),
{
    match op.kind {
        KindView::AddAssignee { assignee } => {
            law_orset_add_present(st.assignees, assignee, op.id);
        },
        KindView::RemoveAssignee { assignee } => {
            law_orset_remove_absent(st.assignees, assignee, x);
        },
        KindView::SetAssignee { assignee: Some(a) } => {
            law_orset_add_present(Map::empty(), a, op.id);
        },
        KindView::Create { assignee: Some(a), .. } => {
            law_orset_add_present(Map::empty(), a, op.id);
        },
        _ => {},
    }
}

/// Law: related files are an add-wins set: an added file is present, a
/// removed one absent, no other changing; no other operation touches them.
pub proof fn law_file_ops(st: IssueView, op: OpView, x: Seq<char>)
    ensures
        ({
            let after = apply_op(st, op).files;
            &&& op.kind matches KindView::AddFile { path, .. } ==> set_present(after, path) && (x
                != path ==> set_present(after, x) == set_present(st.files, x))
            &&& op.kind matches KindView::RemoveFile { path } ==> !set_present(after, path) && (x
                != path ==> set_present(after, x) == set_present(st.files, x))
            &&& !(op.kind is AddFile) && !(op.kind is RemoveFile) ==> after == st.files
        }),
{
    match op.kind {
        KindView::AddFile { path, .. } => {
            law_orset_add_present(st.files, path, op.id);
        },
        KindView::RemoveFile { path } => {
            law_orset_remove_absent(st.files, path, x);
        },
        _ => {},
    }
}

/// Law: a comment touches nothing but the comment log (and the highest
/// clock seen); every other operation leaves the comment log as it was.
pub proof fn law_comment_op_touches_only_comments(st: IssueView, op: OpView)
    ensures
        op.kind is Comment ==> apply_op(st, op) == (IssueView {
            comments: apply_op(st, op).comments,
            max_lamport: apply_op(st, op).max_lamport,
            ..st
        }),
        !(op.kind is Comment) ==> apply_op(st, op).comments == st.comments,
{
}

} // verus!
