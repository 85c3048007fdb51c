//! The operation model and CRDT fold.
//!
//! Every change to an issue is an immutable [`Op`], serialized as one Git
//! commit in the issue's chain (root = `Create`). Current state is never
//! stored: it is computed by folding the op log with CRDT rules ([`Issue`]).
//!
//!   * comments          -> grow-only log, ordered by (lamport, op-id)
//!   * title/description/state/priority/archived -> LWW-Register
//!   * labels, assignees, related files -> OR-Set (observed-remove), tag = op-id;
//!     a sole-assignee write (`set-assignee`, or a `create` naming one) replaces
//!     the assignee set, so the latest such write in causal order wins
//!   * custom fields, file notes -> LWW-Register per key
//!
//! Every op carries a stable, explicit op-id minted at creation (never
//! derived from position or content), so duplicated ops collapse to one.
use crate::error::{ErrView, GliError};
use crate::keyed::{
    find_slot, has_key, key_views, keyed_map, lemma_keyed_at, lemma_keyed_dom, lemma_keyed_ext,
    lemma_keys_strictly_sorted, lemma_sorted_insert, lemma_sorted_remove, lemma_sorted_update,
    sorted_keys, strictly_sorted,
};
use crate::text::{
    index_of, is_blank, lemma_idx_of, lower_chars, lower_seq, seq_lt, str_eq, str_lt, to_chars,
    trim, trim_range, lemma_seq_lt_irrefl, contains_char,
};
use vstd::prelude::*;

verus! {

/// On-disk format version, stamped on every op. Parsers ignore unknown fields
/// and never reject a higher version.
pub const FORMAT_VERSION: u32 = 1;

// ---------------------------------------------------------------------------
// Operations
// ---------------------------------------------------------------------------

#[derive(Clone, Copy, Debug, PartialEq, Eq, Structural)]
pub enum State {
    Open,
    Closed,
}

/// The payload of an operation. The op-id, lamport clock, actor and format
/// version live on the enclosing [`Op`].
#[derive(Clone, Debug, PartialEq, Eq)]
pub enum OpKind {
    /// Opens the issue. A named assignee is a sole-assignee write, as in
    /// `SetAssignee`.
    Create {
        title: String,
        description: String,
        labels: Vec<String>,
        assignee: Option<String>,
        priority: Option<String>,
    },
    Comment { text: String },
    SetTitle { title: String },
    SetDescription { description: String },
    SetState { state: State, reason: Option<String>, fixed_by: Option<String> },
    /// Sets the sole assignee; `None` clears every assignee.
    SetAssignee { assignee: Option<String> },
    SetPriority { priority: Option<String> },
    AddLabel { label: String },
    RemoveLabel { label: String },
    /// Archive (hide) or restore an issue; folds as an LWW-Register.
    SetArchived { archived: bool },
    AddAssignee { assignee: String },
    RemoveAssignee { assignee: String },
    /// Sets a custom field; an empty value clears it.
    SetField { key: String, value: String },
    /// Attaches a related file path with a note.
    AddFile { path: String, note: String },
    SetFileNote { path: String, note: String },
    RemoveFile { path: String },
}

/// One immutable operation: payload plus stable identity and CRDT metadata.
#[derive(Clone, Debug, PartialEq, Eq)]
pub struct Op {
    /// Stable op-id (uuidv7 hex, no dashes). Minted once, never changes.
    pub id: String,
    /// Logical (Lamport) clock, not wall-clock.
    pub lamport: u64,
    /// Actor slug that authored this op (namespaces display numbers).
    pub actor: String,
    pub format_version: u32,
    pub kind: OpKind,
    /// Provenance filled in when read back from git (ignored on write).
    pub commit: Option<String>,
    pub author: Option<String>,
    pub timestamp: Option<i64>,
}

/// The model of an [`OpKind`].
pub enum KindView {
    Create {
        title: Seq<char>,
        description: Seq<char>,
        labels: Seq<Seq<char>>,
        assignee: Option<Seq<char>>,
        priority: Option<Seq<char>>,
    },
    Comment { text: Seq<char> },
    SetTitle { title: Seq<char> },
    SetDescription { description: Seq<char> },
    SetState { state: State, reason: Option<Seq<char>>, fixed_by: Option<Seq<char>> },
    SetAssignee { assignee: Option<Seq<char>> },
    SetPriority { priority: Option<Seq<char>> },
    AddLabel { label: Seq<char> },
    RemoveLabel { label: Seq<char> },
    SetArchived { archived: bool },
    AddAssignee { assignee: Seq<char> },
    RemoveAssignee { assignee: Seq<char> },
    SetField { key: Seq<char>, value: Seq<char> },
    AddFile { path: Seq<char>, note: Seq<char> },
    SetFileNote { path: Seq<char>, note: Seq<char> },
    RemoveFile { path: Seq<char> },
}

/// The model of an [`Op`].
pub struct OpView {
    pub id: Seq<char>,
    pub lamport: u64,
    pub actor: Seq<char>,
    pub format_version: u32,
    pub kind: KindView,
    pub commit: Option<Seq<char>>,
    pub author: Option<Seq<char>>,
    pub timestamp: Option<i64>,
}

impl View for OpKind {
    type V = KindView;

    open spec fn view(&self) -> KindView {
        match self {
            OpKind::Create { title, description, labels, assignee, priority } => KindView::Create {
                title: title@,
                description: description@,
                labels: labels.deep_view(),
                assignee: assignee.deep_view(),
                priority: priority.deep_view(),
            },
            OpKind::Comment { text } => KindView::Comment { text: text@ },
            OpKind::SetTitle { title } => KindView::SetTitle { title: title@ },
            OpKind::SetDescription { description } => KindView::SetDescription {
                description: description@,
            },
            OpKind::SetState { state, reason, fixed_by } => KindView::SetState {
                state: *state,
                reason: reason.deep_view(),
                fixed_by: fixed_by.deep_view(),
            },
            OpKind::SetAssignee { assignee } => KindView::SetAssignee {
                assignee: assignee.deep_view(),
            },
            OpKind::SetPriority { priority } => KindView::SetPriority {
                priority: priority.deep_view(),
            },
            OpKind::AddLabel { label } => KindView::AddLabel { label: label@ },
            OpKind::RemoveLabel { label } => KindView::RemoveLabel { label: label@ },
            OpKind::SetArchived { archived } => KindView::SetArchived { archived: *archived },
            OpKind::AddAssignee { assignee } => KindView::AddAssignee { assignee: assignee@ },
            OpKind::RemoveAssignee { assignee } => KindView::RemoveAssignee {
                assignee: assignee@,
            },
            OpKind::SetField { key, value } => KindView::SetField { key: key@, value: value@ },
            OpKind::AddFile { path, note } => KindView::AddFile { path: path@, note: note@ },
            OpKind::SetFileNote { path, note } => KindView::SetFileNote {
                path: path@,
                note: note@,
            },
            OpKind::RemoveFile { path } => KindView::RemoveFile { path: path@ },
        }
    }
}

impl View for Op {
    type V = OpView;

    open spec fn view(&self) -> OpView {
        OpView {
            id: self.id@,
            lamport: self.lamport,
            actor: self.actor@,
            format_version: self.format_version,
            kind: self.kind@,
            commit: self.commit.deep_view(),
            author: self.author.deep_view(),
            timestamp: self.timestamp,
        }
    }
}

pub fn clone_string(s: &String) -> (r: String)
    ensures
        r@ == s@,
{
    s.clone()
}

pub fn clone_opt(o: &Option<String>) -> (r: Option<String>)
    ensures
        r.deep_view() == o.deep_view(),
{
    match o {
        Some(s) => Some(s.clone()),
        None => None,
    }
}

pub fn clone_strings(v: &Vec<String>) -> (r: Vec<String>)
    ensures
        r.deep_view() == v.deep_view(),
{
    let mut r: Vec<String> = Vec::new();
    let n = v.len();
    let mut i: usize = 0;
    while i < n
        invariant
            n == v@.len(),
            i <= n,
            r.deep_view() =~= v.deep_view().take(i as int),
        decreases n - i,
    {
        let ghost before = r.deep_view();
        r.push(v[i].clone());
        assert(r.deep_view() =~= before.push(v@[i as int]@));
        assert(v.deep_view().take(i + 1) =~= v.deep_view().take(i as int).push(v@[i as int]@));
        i = i + 1;
    }
    assert(v.deep_view().take(n as int) =~= v.deep_view());
    r
}

impl OpKind {
    /// A copy of this payload.
    pub fn duplicate(&self) -> (r: OpKind)
        ensures
            r@ == self@,
    {
        match self {
            OpKind::Create { title, description, labels, assignee, priority } => OpKind::Create {
                title: clone_string(title),
                description: clone_string(description),
                labels: clone_strings(labels),
                assignee: clone_opt(assignee),
                priority: clone_opt(priority),
            },
            OpKind::Comment { text } => OpKind::Comment { text: clone_string(text) },
            OpKind::SetTitle { title } => OpKind::SetTitle { title: clone_string(title) },
            OpKind::SetDescription { description } => OpKind::SetDescription {
                description: clone_string(description),
            },
            OpKind::SetState { state, reason, fixed_by } => OpKind::SetState {
                state: *state,
                reason: clone_opt(reason),
                fixed_by: clone_opt(fixed_by),
            },
            OpKind::SetAssignee { assignee } => OpKind::SetAssignee {
                assignee: clone_opt(assignee),
            },
            OpKind::SetPriority { priority } => OpKind::SetPriority {
                priority: clone_opt(priority),
            },
            OpKind::AddLabel { label } => OpKind::AddLabel { label: clone_string(label) },
            OpKind::RemoveLabel { label } => OpKind::RemoveLabel { label: clone_string(label) },
            OpKind::SetArchived { archived } => OpKind::SetArchived { archived: *archived },
            OpKind::AddAssignee { assignee } => OpKind::AddAssignee {
                assignee: clone_string(assignee),
            },
            OpKind::RemoveAssignee { assignee } => OpKind::RemoveAssignee {
                assignee: clone_string(assignee),
            },
            OpKind::SetField { key, value } => OpKind::SetField {
                key: clone_string(key),
                value: clone_string(value),
            },
            OpKind::AddFile { path, note } => OpKind::AddFile {
                path: clone_string(path),
                note: clone_string(note),
            },
            OpKind::SetFileNote { path, note } => OpKind::SetFileNote {
                path: clone_string(path),
                note: clone_string(note),
            },
            OpKind::RemoveFile { path } => OpKind::RemoveFile { path: clone_string(path) },
        }
    }
}

impl Op {
    /// Builds a fresh op with the given identity and payload.
    pub fn new(id: String, lamport: u64, actor: String, kind: OpKind) -> (r: Op)
        ensures
            r@ == (OpView {
                id: id@,
                lamport,
                actor: actor@,
                format_version: FORMAT_VERSION,
                kind: kind@,
                commit: None,
                author: None,
                timestamp: None,
            }),
    {
        Op {
            id,
            lamport,
            actor,
            format_version: FORMAT_VERSION,
            kind,
            commit: None,
            author: None,
            timestamp: None,
        }
    }
}

// ---------------------------------------------------------------------------
// Issue state values
// ---------------------------------------------------------------------------

#[derive(Clone, Debug, PartialEq, Eq)]
pub struct Comment {
    pub id: String,
    pub actor: String,
    pub text: String,
    pub lamport: u64,
    pub timestamp: Option<i64>,
    pub author: Option<String>,
}

pub struct CommentView {
    pub id: Seq<char>,
    pub actor: Seq<char>,
    pub text: Seq<char>,
    pub lamport: u64,
    pub timestamp: Option<i64>,
    pub author: Option<Seq<char>>,
}

impl DeepView for Comment {
    type V = CommentView;

    open spec fn deep_view(&self) -> CommentView {
        CommentView {
            id: self.id@,
            actor: self.actor@,
            text: self.text@,
            lamport: self.lamport,
            timestamp: self.timestamp,
            author: self.author.deep_view(),
        }
    }
}

#[derive(Clone, Debug, PartialEq, Eq)]
pub struct StateVal {
    pub state: State,
    pub reason: Option<String>,
    pub fixed_by: Option<String>,
}

pub struct StateValView {
    pub state: State,
    pub reason: Option<Seq<char>>,
    pub fixed_by: Option<Seq<char>>,
}

impl DeepView for StateVal {
    type V = StateValView;

    open spec fn deep_view(&self) -> StateValView {
        StateValView {
            state: self.state,
            reason: self.reason.deep_view(),
            fixed_by: self.fixed_by.deep_view(),
        }
    }
}

/// An open issue with no reason and no fixing commit.
pub open spec fn default_state_view() -> StateValView {
    StateValView { state: State::Open, reason: None, fixed_by: None }
}

impl StateVal {
    pub fn open() -> (r: StateVal)
        ensures
            r.deep_view() == default_state_view(),
    {
        StateVal { state: State::Open, reason: None, fixed_by: None }
    }
}

impl Default for StateVal {
    fn default() -> (r: StateVal)
        ensures
            r.deep_view() == default_state_view(),
    {
        StateVal::open()
    }
}

// ---------------------------------------------------------------------------
// Last-Writer-Wins register
// ---------------------------------------------------------------------------

/// Last-Writer-Wins register ordered by (lamport, op-id). The op-id tie-break
/// makes the winner deterministic across clones when two writes share a clock.
#[derive(Clone, Debug, PartialEq, Eq)]
pub struct Lww<T> {
    value: T,
    lamport: u64,
    tiebreak: String,
    set: bool,
}

/// The model of a register: its value and the stamp of the write that set it.
pub struct LwwView<V> {
    pub value: V,
    pub lamport: u64,
    pub tiebreak: Seq<char>,
    pub set: bool,
}

/// `(l1, id1) < (l2, id2)` in the order of tuples.
pub open spec fn stamp_lt(l1: u64, id1: Seq<char>, l2: u64, id2: Seq<char>) -> bool {
    l1 < l2 || (l1 == l2 && seq_lt(id1, id2))
}

impl<V> LwwView<V> {
    /// An unset register holding `value`.
    pub open spec fn unset(value: V) -> LwwView<V> {
        LwwView { value, lamport: 0, tiebreak: Seq::empty(), set: false }
    }

    /// A write with this stamp replaces the current value.
    pub open spec fn wins(self, lamport: u64, id: Seq<char>) -> bool {
        !self.set || stamp_lt(self.lamport, self.tiebreak, lamport, id)
    }

    /// The register after a write.
    pub open spec fn applied(self, value: V, lamport: u64, id: Seq<char>) -> LwwView<V> {
        if self.wins(lamport, id) {
            LwwView { value, lamport, tiebreak: id, set: true }
        } else {
            self
        }
    }
}

impl<T: DeepView> View for Lww<T> {
    type V = LwwView<T::V>;

    closed spec fn view(&self) -> LwwView<T::V> {
        LwwView {
            value: self.value.deep_view(),
            lamport: self.lamport,
            tiebreak: self.tiebreak@,
            set: self.set,
        }
    }
}

pub fn stamp_less(l1: u64, id1: &str, l2: u64, id2: &str) -> (r: bool)
    ensures
        r == stamp_lt(l1, id1@, l2, id2@),
{
    l1 < l2 || (l1 == l2 && str_lt(id1, id2))
}

impl<T: DeepView> Lww<T> {
    /// An unset register holding `value`.
    pub fn unset(value: T) -> (r: Lww<T>)
        ensures
            r@ == LwwView::unset(value.deep_view()),
    {
        Lww { value, lamport: 0, tiebreak: String::new(), set: false }
    }

    /// Apply a write; keep it only if it strictly beats the current stamp.
    pub fn apply(&mut self, value: T, lamport: u64, op_id: &str)
        ensures
            final(self)@ == old(self)@.applied(value.deep_view(), lamport, op_id@),
    {
        if !self.set || stamp_less(self.lamport, self.tiebreak.as_str(), lamport, op_id) {
            self.value = value;
            self.lamport = lamport;
            self.tiebreak = op_id.to_owned();
            self.set = true;
        }
    }

    pub fn get(&self) -> (r: &T)
        ensures
            r.deep_view() == self@.value,
    {
        &self.value
    }

    pub fn is_set(&self) -> (r: bool)
        ensures
            r == self@.set,
    {
        self.set
    }
}

// ---------------------------------------------------------------------------
// Observed-remove set
// ---------------------------------------------------------------------------

/// Observed-remove set. Each element maps to its live add-tags (op-ids); an
/// element is present iff it has at least one live tag.
///
/// A single linear chain is folded, so a remove clears every tag observed so
/// far for the element; the per-add tags are what concurrent-merge tombstone
/// handling will build on.
#[derive(Debug, PartialEq, Eq)]
pub struct OrSet {
    tags: Vec<(String, Vec<String>)>,
}

pub open spec fn tag_views(es: Seq<(String, Vec<String>)>) -> Seq<(Seq<char>, Seq<Seq<char>>)> {
    es.map_values(|p: (String, Vec<String>)| (p.0@, p.1.deep_view()))
}

/// The set after adding `e` with tag `t` (a repeated tag is not added twice).
pub open spec fn set_add(m: Map<Seq<char>, Seq<Seq<char>>>, e: Seq<char>, t: Seq<char>) -> Map<
    Seq<char>,
    Seq<Seq<char>>,
> {
    if m.contains_key(e) {
        if m[e].contains(t) {
            m
        } else {
            m.insert(e, m[e].push(t))
        }
    } else {
        m.insert(e, seq![t])
    }
}

/// The elements present in an OR-Set: those with a live tag.
pub open spec fn set_present(m: Map<Seq<char>, Seq<Seq<char>>>, e: Seq<char>) -> bool {
    m.contains_key(e) && m[e].len() > 0
}

proof fn lemma_same_keys<A, B>(a: Seq<(String, A)>, b: Seq<(Seq<char>, B)>)
    requires
        a.len() == b.len(),
        forall|i: int| 0 <= i < a.len() ==> (#[trigger] a[i]).0@ == b[i].0,
    ensures
        sorted_keys(key_views(a)) <==> sorted_keys(b),
        forall|k: Seq<char>| has_key(key_views(a), k) <==> has_key(b, k),
{
    let ka = key_views(a);
    assert forall|k: Seq<char>| has_key(key_views(a), k) <==> has_key(b, k) by {
        if has_key(ka, k) {
            let i = choose|i: int| 0 <= i < ka.len() && (#[trigger] ka[i]).0 == k;
            assert(b[i].0 == k);
        }
        if has_key(b, k) {
            let i = choose|i: int| 0 <= i < b.len() && (#[trigger] b[i]).0 == k;
            assert(ka[i].0 == k);
        }
    }
    assert forall|i: int| 0 <= i < a.len() implies (#[trigger] ka[i]).0 == b[i].0 by {}
    if sorted_keys(ka) {
        assert forall|i: int, j: int| 0 <= i < j < b.len() implies seq_lt(
            #[trigger] b[i].0,
            #[trigger] b[j].0,
        ) by {
            assert(ka[i].0 == b[i].0);
            assert(ka[j].0 == b[j].0);
        }
    }
    if sorted_keys(b) {
        assert forall|i: int, j: int| 0 <= i < j < ka.len() implies seq_lt(
            #[trigger] ka[i].0,
            #[trigger] ka[j].0,
        ) by {
            assert(ka[i].0 == b[i].0);
            assert(ka[j].0 == b[j].0);
        }
    }
}

impl Clone for OrSet {
    fn clone(&self) -> (r: OrSet)
        ensures
            r@ == self@,
    {
        self.duplicate()
    }
}

impl View for OrSet {
    type V = Map<Seq<char>, Seq<Seq<char>>>;

    closed spec fn view(&self) -> Map<Seq<char>, Seq<Seq<char>>> {
        keyed_map(tag_views(self.tags@))
    }
}

impl OrSet {
    #[verifier::type_invariant]
    closed spec fn inv(self) -> bool {
        sorted_keys(tag_views(self.tags@))
    }

    pub fn new() -> (r: OrSet)
        ensures
            r@ == Map::<Seq<char>, Seq<Seq<char>>>::empty(),
    {
        let r = OrSet { tags: Vec::new() };
        assert(tag_views(r.tags@) =~= Seq::<(Seq<char>, Seq<Seq<char>>)>::empty());
        r
    }

    /// Adds `element` with the add-tag `tag`.
    pub fn add(&mut self, element: &str, tag: &str)
        ensures
            final(self)@ == set_add(old(self)@, element@, tag@),
    {
        proof {
            use_type_invariant(&*self);
        }
        let mut tags: Vec<(String, Vec<String>)> = Vec::new();
        std::mem::swap(&mut tags, &mut self.tags);
        let ghost tv = tag_views(tags@);
        let ghost m = keyed_map(tv);
        proof {
            lemma_same_keys(tags@, tv);
        }
        let (j, found) = find_slot(&tags, element);
        if found {
            let (k, mut ts) = tags.remove(j);
            let ghost old_ts = ts.deep_view();
            proof {
                assert(tv[j as int].0 == element@);
                assert(tv[j as int].1 == old_ts);
                lemma_keyed_at(tv, j as int);
            }
            let mut seen = false;
            let n = ts.len();
            let mut i: usize = 0;
            while i < n
                invariant
                    n == ts@.len(),
                    i <= n,
                    seen == ts.deep_view().take(i as int).contains(tag@),
                decreases n - i,
            {
                let eq = str_eq(ts[i].as_str(), tag);
                let ghost was = seen;
                if eq {
                    seen = true;
                }
                proof {
                    let t0 = ts.deep_view().take(i as int);
                    let t1 = ts.deep_view().take(i + 1);
                    assert(t1 =~= t0.push(ts.deep_view()[i as int]));
                    if eq {
                        assert(t1[i as int] == tag@);
                    }
                    if t1.contains(tag@) && !t0.contains(tag@) {
                        let q = choose|q: int| 0 <= q < t1.len() && t1[q] == tag@;
                        if q < i {
                            assert(t0[q] == tag@);
                        }
                    }
                    if t0.contains(tag@) {
                        let q = choose|q: int| 0 <= q < t0.len() && t0[q] == tag@;
                        assert(t1[q] == tag@);
                    }
                }
                i = i + 1;
            }
            assert(ts.deep_view().take(n as int) =~= ts.deep_view());
            if !seen {
                ts.push(tag.to_owned());
            }
            let ghost new_ts = ts.deep_view();
            tags.insert(j, (k, ts));
            proof {
                let nv = tag_views(tags@);
                assert(nv =~= tv.update(j as int, (tv[j as int].0, new_ts)));
                lemma_sorted_update(tv, j as int, new_ts);
                let target = m.insert(element@, new_ts);
                assert forall|i: int| 0 <= i < nv.len() implies target[(#[trigger] nv[i]).0]
                    == nv[i].1 by {
                    if i != j {
                        lemma_keyed_at(tv, i);
                        assert(seq_lt(tv[i].0, tv[j as int].0) || seq_lt(
                            tv[j as int].0,
                            tv[i].0,
                        ));
                        lemma_seq_lt_irrefl(element@);
                    }
                }
                assert forall|x: Seq<char>| has_key(nv, x) <==> target.contains_key(x) by {
                    lemma_keyed_dom(tv, x);
                }
                lemma_keyed_ext(nv, target);
                if seen {
                    assert(new_ts =~= old_ts);
                    assert(target =~= m);
                } else {
                    assert(new_ts =~= old_ts.push(tag@));
                }
                lemma_same_keys(tags@, nv);
            }
        } else {
            let mut ts: Vec<String> = Vec::new();
            ts.push(tag.to_owned());
            let ghost new_ts = ts.deep_view();
            let ghost e = (element@, new_ts);
            tags.insert(j, (element.to_owned(), ts));
            proof {
                assert(new_ts =~= seq![tag@]);
                let nv = tag_views(tags@);
                assert(nv =~= tv.insert(j as int, e));
                assert forall|i: int| 0 <= i < j implies seq_lt(#[trigger] tv[i].0, e.0) by {
                    assert(tv[i].0 == tags@[i].0@);
                }
                assert forall|i: int| j <= i < tv.len() implies seq_lt(e.0, #[trigger] tv[i].0) by {
                    assert(tv[i].0 == old(self).tags@[i].0@) by {
                    }
                }
                lemma_sorted_insert(tv, j as int, e);
                lemma_keyed_dom(tv, element@);
                let target = m.insert(element@, new_ts);
                assert forall|i: int| 0 <= i < nv.len() implies target[(#[trigger] nv[i]).0]
                    == nv[i].1 by {
                    if i < j {
                        lemma_keyed_at(tv, i);
                        assert(nv[i] == tv[i]);
                        assert(tv[i].0 != element@) by {
                            lemma_seq_lt_irrefl(element@);
                        }
                    } else if i > j {
                        lemma_keyed_at(tv, i - 1);
                        assert(nv[i] == tv[i - 1]);
                        assert(tv[i - 1].0 != element@) by {
                            lemma_seq_lt_irrefl(element@);
                        }
                    }
                }
                assert forall|x: Seq<char>| has_key(nv, x) <==> target.contains_key(x) by {
                    lemma_keyed_dom(tv, x);
                }
                lemma_keyed_ext(nv, target);
                lemma_same_keys(tags@, nv);
            }
        }
        self.tags = tags;
    }

    /// Removes `element` with every tag observed for it.
    pub fn remove(&mut self, element: &str)
        ensures
            final(self)@ == old(self)@.remove(element@),
    {
        proof {
            use_type_invariant(&*self);
        }
        let mut tags: Vec<(String, Vec<String>)> = Vec::new();
        std::mem::swap(&mut tags, &mut self.tags);
        let ghost tv = tag_views(tags@);
        let ghost m = keyed_map(tv);
        proof {
            lemma_same_keys(tags@, tv);
        }
        let (j, found) = find_slot(&tags, element);
        if found {
            tags.remove(j);
            proof {
                let nv = tag_views(tags@);
                assert(nv =~= tv.remove(j as int));
                assert(tv[j as int].0 == element@);
                lemma_sorted_remove(tv, j as int);
                let target = m.remove(element@);
                assert forall|i: int| 0 <= i < nv.len() implies target[(#[trigger] nv[i]).0]
                    == nv[i].1 by {
                    if i < j {
                        lemma_keyed_at(tv, i);
                        assert(nv[i] == tv[i]);
                        assert(seq_lt(tv[i].0, tv[j as int].0));
                        lemma_seq_lt_irrefl(element@);
                    } else {
                        lemma_keyed_at(tv, i + 1);
                        assert(nv[i] == tv[i + 1]);
                        assert(seq_lt(tv[j as int].0, tv[i + 1].0));
                        lemma_seq_lt_irrefl(element@);
                    }
                }
                assert forall|x: Seq<char>| has_key(nv, x) <==> target.contains_key(x) by {
                    lemma_keyed_dom(tv, x);
                }
                lemma_keyed_ext(nv, target);
                lemma_same_keys(tags@, nv);
            }
        } else {
            proof {
                lemma_keyed_dom(tv, element@);
                assert(m.remove(element@) =~= m);
            }
        }
        self.tags = tags;
    }

    /// Removes every element.
    pub fn clear(&mut self)
        ensures
            final(self)@ == Map::<Seq<char>, Seq<Seq<char>>>::empty(),
    {
        self.tags = Vec::new();
        assert(tag_views(self.tags@) =~= Seq::<(Seq<char>, Seq<Seq<char>>)>::empty());
    }

    pub fn contains(&self, element: &str) -> (r: bool)
        ensures
            r == set_present(self@, element@),
    {
        proof {
            use_type_invariant(self);
            lemma_same_keys(self.tags@, tag_views(self.tags@));
            lemma_keyed_dom(tag_views(self.tags@), element@);
        }
        let (j, found) = find_slot(&self.tags, element);
        if found {
            proof {
                lemma_keyed_at(tag_views(self.tags@), j as int);
            }
            self.tags[j].1.len() > 0
        } else {
            false
        }
    }

    /// Present elements, in sorted order.
    pub fn values(&self) -> (r: Vec<String>)
        ensures
            strictly_sorted(r.deep_view()),
            forall|x: Seq<char>| r.deep_view().contains(x) <==> set_present(self@, x),
    {
        proof {
            use_type_invariant(self);
        }
        let ghost tv = tag_views(self.tags@);
        let ghost mut src: Seq<int> = Seq::empty();
        let mut r: Vec<String> = Vec::new();
        let n = self.tags.len();
        let mut i: usize = 0;
        while i < n
            invariant
                n == self.tags@.len(),
                tv == tag_views(self.tags@),
                sorted_keys(tv),
                i <= n,
                src.len() == r@.len(),
                forall|a: int|
                    0 <= a < r@.len() ==> 0 <= #[trigger] src[a] < i && r.deep_view()[a]
                        == tv[src[a]].0 && tv[src[a]].1.len() > 0,
                forall|a: int, c: int| 0 <= a < c < r@.len() ==> src[a] < src[c],
                forall|b: int|
                    0 <= b < i && tv[b].1.len() > 0 ==> r.deep_view().contains(
                        #[trigger] tv[b].0,
                    ),
            decreases n - i,
        {
            let ghost before = r.deep_view();
            let ghost sb = src;
            if self.tags[i].1.len() > 0 {
                r.push(self.tags[i].0.clone());
                proof {
                    src = src.push(i as int);
                    assert(r.deep_view() =~= before.push(tv[i as int].0));
                    assert(r.deep_view()[before.len() as int] == tv[i as int].0);
                    assert(tv[i as int].1.len() > 0);
                }
            }
            proof {
                assert forall|b: int|
                    0 <= b < i + 1 && tv[b].1.len() > 0 implies r.deep_view().contains(
                    #[trigger] tv[b].0,
                ) by {
                    if b < i {
                        assert(before.contains(tv[b].0));
                        let q = choose|q: int| 0 <= q < before.len() && before[q] == tv[b].0;
                        assert(r.deep_view()[q] == tv[b].0);
                    }
                }
                assert forall|a: int|
                    0 <= a < r@.len() implies 0 <= #[trigger] src[a] < i + 1 && r.deep_view()[a]
                    == tv[src[a]].0 && tv[src[a]].1.len() > 0 by {
                    if a < before.len() {
                        assert(src[a] == sb[a]);
                        assert(r.deep_view()[a] == before[a]);
                    }
                }
            }
            i = i + 1;
        }
        proof {
            let rv = r.deep_view();
            assert forall|a: int, c: int| 0 <= a < c < rv.len() implies seq_lt(
                #[trigger] rv[a],
                #[trigger] rv[c],
            ) by {
                assert(src[a] < src[c]);
                assert(0 <= src[a] < n);
                assert(0 <= src[c] < n);
                assert(seq_lt(tv[src[a]].0, tv[src[c]].0));
            }
            assert forall|x: Seq<char>| r.deep_view().contains(x) <==> set_present(self@, x) by {
                lemma_keyed_dom(tv, x);
                if r.deep_view().contains(x) {
                    let a = choose|a: int| 0 <= a < r.deep_view().len() && r.deep_view()[a] == x;
                    assert(0 <= src[a] < n);
                    lemma_keyed_at(tv, src[a]);
                }
                if set_present(self@, x) {
                    let b = choose|b: int| 0 <= b < tv.len() && (#[trigger] tv[b]).0 == x;
                    lemma_keyed_at(tv, b);
                }
            }
        }
        r
    }

    /// A copy of this set.
    pub fn duplicate(&self) -> (r: OrSet)
        ensures
            r@ == self@,
    {
        proof {
            use_type_invariant(self);
        }
        let ghost tv = tag_views(self.tags@);
        let mut tags: Vec<(String, Vec<String>)> = Vec::new();
        let n = self.tags.len();
        let mut i: usize = 0;
        while i < n
            invariant
                n == self.tags@.len(),
                tv == tag_views(self.tags@),
                i <= n,
                tag_views(tags@) =~= tv.take(i as int),
            decreases n - i,
        {
            let ghost before = tag_views(tags@);
            let k = self.tags[i].0.clone();
            let ts = clone_strings(&self.tags[i].1);
            tags.push((k, ts));
            assert(tag_views(tags@) =~= before.push(tv[i as int]));
            assert(tv.take(i + 1) =~= tv.take(i as int).push(tv[i as int]));
            i = i + 1;
        }
        assert(tv.take(n as int) =~= tv);
        OrSet { tags }
    }

    /// The least present element.
    pub fn first(&self) -> (r: Option<&String>)
        ensures
            match r {
                Some(x) => set_present(self@, x@) && forall|y: Seq<char>|
                    set_present(self@, y) && y != x@ ==> seq_lt(x@, y),
                None => forall|y: Seq<char>| !set_present(self@, y),
            },
    {
        proof {
            use_type_invariant(self);
        }
        let ghost tv = tag_views(self.tags@);
        let n = self.tags.len();
        let mut i: usize = 0;
        while i < n
            invariant
                n == self.tags@.len(),
                tv == tag_views(self.tags@),
                sorted_keys(tv),
                i <= n,
                forall|b: int| 0 <= b < i ==> (#[trigger] tv[b]).1.len() == 0,
            decreases n - i,
        {
            if self.tags[i].1.len() > 0 {
                proof {
                    lemma_keyed_at(tv, i as int);
                    assert forall|y: Seq<char>|
                        set_present(self@, y) && y != tv[i as int].0 implies seq_lt(
                        tv[i as int].0,
                        y,
                    ) by {
                        lemma_keyed_dom(tv, y);
                        let b = choose|b: int| 0 <= b < tv.len() && (#[trigger] tv[b]).0 == y;
                        lemma_keyed_at(tv, b);
                        if b < i {
                        } else if b == i {
                        } else {
                            assert(seq_lt(tv[i as int].0, tv[b].0));
                        }
                    }
                }
                return Some(&self.tags[i].0);
            }
            i = i + 1;
        }
        proof {
            assert forall|y: Seq<char>| !set_present(self@, y) by {
                lemma_keyed_dom(tv, y);
                if has_key(tv, y) {
                    let b = choose|b: int| 0 <= b < tv.len() && (#[trigger] tv[b]).0 == y;
                    lemma_keyed_at(tv, b);
                }
            }
        }
        None
    }
}

// ---------------------------------------------------------------------------
// Registers keyed by text
// ---------------------------------------------------------------------------

/// One LWW-Register per key (custom fields, notes of related files).
#[derive(Debug, PartialEq, Eq)]
pub struct LwwMap {
    entries: Vec<(String, Lww<String>)>,
}

pub open spec fn reg_views(es: Seq<(String, Lww<String>)>) -> Seq<(Seq<char>, LwwView<Seq<char>>)> {
    es.map_values(|p: (String, Lww<String>)| (p.0@, p.1@))
}

/// The registers after a write to `k`; a key never written starts unset and
/// empty.
pub open spec fn map_apply(
    m: Map<Seq<char>, LwwView<Seq<char>>>,
    k: Seq<char>,
    v: Seq<char>,
    lamport: u64,
    id: Seq<char>,
) -> Map<Seq<char>, LwwView<Seq<char>>> {
    m.insert(
        k,
        (if m.contains_key(k) {
            m[k]
        } else {
            LwwView::unset(Seq::empty())
        }).applied(v, lamport, id),
    )
}

impl View for LwwMap {
    type V = Map<Seq<char>, LwwView<Seq<char>>>;

    closed spec fn view(&self) -> Map<Seq<char>, LwwView<Seq<char>>> {
        keyed_map(reg_views(self.entries@))
    }
}

impl Lww<String> {
    /// A copy of this register.
    pub fn duplicate(&self) -> (r: Lww<String>)
        ensures
            r@ == self@,
    {
        Lww {
            value: self.value.clone(),
            lamport: self.lamport,
            tiebreak: self.tiebreak.clone(),
            set: self.set,
        }
    }
}

impl Clone for LwwMap {
    fn clone(&self) -> (r: LwwMap)
        ensures
            r@ == self@,
    {
        self.duplicate()
    }
}

impl LwwMap {
    #[verifier::type_invariant]
    closed spec fn inv(self) -> bool {
        sorted_keys(reg_views(self.entries@))
    }

    pub fn new() -> (r: LwwMap)
        ensures
            r@ == Map::<Seq<char>, LwwView<Seq<char>>>::empty(),
    {
        let r = LwwMap { entries: Vec::new() };
        assert(reg_views(r.entries@) =~= Seq::<(Seq<char>, LwwView<Seq<char>>)>::empty());
        r
    }

    pub fn duplicate(&self) -> (r: LwwMap)
        ensures
            r@ == self@,
    {
        proof {
            use_type_invariant(self);
        }
        let ghost rv = reg_views(self.entries@);
        let mut es: Vec<(String, Lww<String>)> = Vec::new();
        let n = self.entries.len();
        let mut i: usize = 0;
        while i < n
            invariant
                n == self.entries@.len(),
                rv == reg_views(self.entries@),
                i <= n,
                reg_views(es@) =~= rv.take(i as int),
            decreases n - i,
        {
            let ghost before = reg_views(es@);
            let k = self.entries[i].0.clone();
            let v = self.entries[i].1.duplicate();
            es.push((k, v));
            assert(reg_views(es@) =~= before.push(rv[i as int]));
            assert(rv.take(i + 1) =~= rv.take(i as int).push(rv[i as int]));
            i = i + 1;
        }
        assert(rv.take(n as int) =~= rv);
        LwwMap { entries: es }
    }

    /// Writes `value` to the register of `key` with the given stamp.
    pub fn apply(&mut self, key: &str, value: String, lamport: u64, op_id: &str)
        ensures
            final(self)@ == map_apply(old(self)@, key@, value@, lamport, op_id@),
    {
        proof {
            use_type_invariant(&*self);
        }
        let mut es: Vec<(String, Lww<String>)> = Vec::new();
        std::mem::swap(&mut es, &mut self.entries);
        let ghost rv = reg_views(es@);
        let ghost m = keyed_map(rv);
        proof {
            lemma_same_keys(es@, rv);
            lemma_keyed_dom(rv, key@);
        }
        let (j, found) = find_slot(&es, key);
        let ghost nreg: LwwView<Seq<char>>;
        if found {
            let (k, mut reg) = es.remove(j);
            proof {
                assert(rv[j as int].0 == key@);
                assert(rv[j as int].1 == reg@);
                lemma_keyed_at(rv, j as int);
            }
            reg.apply(value, lamport, op_id);
            proof {
                nreg = reg@;
            }
            es.insert(j, (k, reg));
            proof {
                let nv = reg_views(es@);
                assert(nv =~= rv.update(j as int, (rv[j as int].0, nreg)));
                lemma_sorted_update(rv, j as int, nreg);
                let target = m.insert(key@, nreg);
                assert forall|i: int| 0 <= i < nv.len() implies target[(#[trigger] nv[i]).0]
                    == nv[i].1 by {
                    if i != j {
                        lemma_keyed_at(rv, i);
                        assert(seq_lt(rv[i].0, rv[j as int].0) || seq_lt(rv[j as int].0, rv[i].0));
                        lemma_seq_lt_irrefl(key@);
                    }
                }
                assert forall|x: Seq<char>| has_key(nv, x) <==> target.contains_key(x) by {
                    lemma_keyed_dom(rv, x);
                }
                lemma_keyed_ext(nv, target);
                lemma_same_keys(es@, nv);
            }
        } else {
            let mut reg = Lww::unset(String::new());
            reg.apply(value, lamport, op_id);
            proof {
                nreg = reg@;
            }
            let ghost e = (key@, nreg);
            es.insert(j, (key.to_owned(), reg));
            proof {
                let nv = reg_views(es@);
                assert(nv =~= rv.insert(j as int, e));
                assert forall|i: int| 0 <= i < j implies seq_lt(#[trigger] rv[i].0, e.0) by {}
                assert forall|i: int| j <= i < rv.len() implies seq_lt(e.0, #[trigger] rv[i].0) by {}
                lemma_sorted_insert(rv, j as int, e);
                let target = m.insert(key@, nreg);
                assert forall|i: int| 0 <= i < nv.len() implies target[(#[trigger] nv[i]).0]
                    == nv[i].1 by {
                    if i < j {
                        lemma_keyed_at(rv, i);
                        assert(nv[i] == rv[i]);
                        lemma_seq_lt_irrefl(key@);
                    } else if i > j {
                        lemma_keyed_at(rv, i - 1);
                        assert(nv[i] == rv[i - 1]);
                        lemma_seq_lt_irrefl(key@);
                    }
                }
                assert forall|x: Seq<char>| has_key(nv, x) <==> target.contains_key(x) by {
                    lemma_keyed_dom(rv, x);
                }
                lemma_keyed_ext(nv, target);
                lemma_same_keys(es@, nv);
            }
        }
        self.entries = es;
    }

    /// The value of the register of `key`, when it has one.
    pub fn get(&self, key: &str) -> (r: Option<&String>)
        ensures
            match r {
                Some(v) => self@.contains_key(key@) && self@[key@].value == v@,
                None => !self@.contains_key(key@),
            },
    {
        proof {
            use_type_invariant(self);
            lemma_same_keys(self.entries@, reg_views(self.entries@));
            lemma_keyed_dom(reg_views(self.entries@), key@);
        }
        let (j, found) = find_slot(&self.entries, key);
        if found {
            proof {
                lemma_keyed_at(reg_views(self.entries@), j as int);
            }
            Some(self.entries[j].1.get())
        } else {
            None
        }
    }

    /// `(key, value)` for every key whose value is not empty, in key order.
    pub fn listing(&self) -> (r: Vec<(String, String)>)
        ensures
            sorted_keys(crate::trailer::pair_views(r@)),
            forall|k: Seq<char>|
                has_key(crate::trailer::pair_views(r@), k) <==> (self@.contains_key(k)
                    && self@[k].value.len() > 0),
            forall|i: int|
                0 <= i < r@.len() ==> self@[(#[trigger] r@[i]).0@].value == r@[i].1@,
    {
        proof {
            use_type_invariant(self);
        }
        let ghost rv = reg_views(self.entries@);
        let ghost mut src: Seq<int> = Seq::empty();
        let mut r: Vec<(String, String)> = Vec::new();
        let n = self.entries.len();
        let mut i: usize = 0;
        while i < n
            invariant
                n == self.entries@.len(),
                rv == reg_views(self.entries@),
                sorted_keys(rv),
                i <= n,
                src.len() == r@.len(),
                forall|a: int|
                    0 <= a < r@.len() ==> 0 <= #[trigger] src[a] < i && r@[a].0@ == rv[src[a]].0
                        && r@[a].1@ == rv[src[a]].1.value && rv[src[a]].1.value.len() > 0,
                forall|a: int, c: int| 0 <= a < c < r@.len() ==> src[a] < src[c],
                forall|b: int|
                    0 <= b < i && (#[trigger] rv[b]).1.value.len() > 0 ==> has_key(
                        crate::trailer::pair_views(r@),
                        rv[b].0,
                    ),
            decreases n - i,
        {
            let ghost before = r@;
            let ghost sb = src;
            let v = self.entries[i].1.get();
            if !v.as_str().is_empty() {
                let k = self.entries[i].0.clone();
                r.push((k, v.clone()));
                proof {
                    src = src.push(i as int);
                }
            }
            proof {
                let pv = crate::trailer::pair_views(r@);
                let pb = crate::trailer::pair_views(before);
                assert forall|b: int|
                    0 <= b < i + 1 && (#[trigger] rv[b]).1.value.len() > 0 implies has_key(
                    pv,
                    rv[b].0,
                ) by {
                    if b < i {
                        let q = choose|q: int| 0 <= q < pb.len() && (#[trigger] pb[q]).0 == rv[b].0;
                        assert(pv[q] == pb[q]);
                    } else {
                        assert(pv[before.len() as int].0 == rv[i as int].0);
                    }
                }
                assert forall|a: int|
                    0 <= a < r@.len() implies 0 <= #[trigger] src[a] < i + 1 && r@[a].0@
                    == rv[src[a]].0 && r@[a].1@ == rv[src[a]].1.value && rv[src[a]].1.value.len()
                    > 0 by {
                    if a < before.len() {
                        assert(src[a] == sb[a]);
                        assert(r@[a] == before[a]);
                    }
                }
            }
            i = i + 1;
        }
        proof {
            let pv = crate::trailer::pair_views(r@);
            assert forall|a: int, c: int| 0 <= a < c < pv.len() implies seq_lt(
                #[trigger] pv[a].0,
                #[trigger] pv[c].0,
            ) by {
                assert(src[a] < src[c]);
                assert(0 <= src[a] < n);
                assert(0 <= src[c] < n);
                assert(seq_lt(rv[src[a]].0, rv[src[c]].0));
            }
            assert forall|k: Seq<char>|
                has_key(pv, k) <==> (self@.contains_key(k) && self@[k].value.len() > 0) by {
                lemma_keyed_dom(rv, k);
                if has_key(pv, k) {
                    let a = choose|a: int| 0 <= a < pv.len() && (#[trigger] pv[a]).0 == k;
                    assert(0 <= src[a] < n);
                    lemma_keyed_at(rv, src[a]);
                }
                if self@.contains_key(k) && self@[k].value.len() > 0 {
                    let b = choose|b: int| 0 <= b < rv.len() && (#[trigger] rv[b]).0 == k;
                    lemma_keyed_at(rv, b);
                }
            }
            assert forall|a: int| 0 <= a < r@.len() implies self@[(#[trigger] r@[a]).0@].value
                == r@[a].1@ by {
                assert(0 <= src[a] < n);
                lemma_keyed_at(rv, src[a]);
            }
        }
        r
    }
}

// ---------------------------------------------------------------------------
// The folded issue
// ---------------------------------------------------------------------------

/// The current state of an issue, computed by folding its op log. Never stored
/// as truth: rebuild it any time by re-reading the chain.
#[derive(Clone, Debug)]
pub struct Issue {
    /// The issue uuid (hex, no dashes). Truth identity; ref = refs/issues/<uuid>.
    pub uuid: String,
    pub title: Lww<String>,
    pub description: Lww<String>,
    pub state: Lww<StateVal>,
    /// The assignees (an issue can have several).
    pub assignees: OrSet,
    pub priority: Lww<Option<String>>,
    pub labels: OrSet,
    pub comments: Vec<Comment>,
    /// Whether the issue is archived (hidden from default listings).
    pub archived: Lww<bool>,
    /// Custom fields: one register per key.
    pub fields: LwwMap,
    /// Related file paths.
    pub files: OrSet,
    /// The note of each related file path.
    pub file_notes: LwwMap,
    /// Actor that created the issue (namespaces its display number).
    pub creator: String,
    pub created_at: Option<i64>,
    pub op_count: usize,
    pub max_lamport: u64,
}

/// The model of an [`Issue`].
pub struct IssueView {
    pub uuid: Seq<char>,
    pub title: LwwView<Seq<char>>,
    pub description: LwwView<Seq<char>>,
    pub state: LwwView<StateValView>,
    pub assignees: Map<Seq<char>, Seq<Seq<char>>>,
    pub priority: LwwView<Option<Seq<char>>>,
    pub labels: Map<Seq<char>, Seq<Seq<char>>>,
    pub comments: Seq<CommentView>,
    pub archived: LwwView<bool>,
    pub fields: Map<Seq<char>, LwwView<Seq<char>>>,
    pub files: Map<Seq<char>, Seq<Seq<char>>>,
    pub file_notes: Map<Seq<char>, LwwView<Seq<char>>>,
    pub creator: Seq<char>,
    pub created_at: Option<i64>,
    pub op_count: nat,
    pub max_lamport: u64,
}

impl View for Issue {
    type V = IssueView;

    open spec fn view(&self) -> IssueView {
        IssueView {
            uuid: self.uuid@,
            title: self.title@,
            description: self.description@,
            state: self.state@,
            assignees: self.assignees@,
            priority: self.priority@,
            labels: self.labels@,
            comments: self.comments.deep_view(),
            archived: self.archived@,
            fields: self.fields@,
            files: self.files@,
            file_notes: self.file_notes@,
            creator: self.creator@,
            created_at: self.created_at,
            op_count: self.op_count as nat,
            max_lamport: self.max_lamport,
        }
    }
}

/// Each label added with the same tag, in order.
pub open spec fn add_all(
    m: Map<Seq<char>, Seq<Seq<char>>>,
    labels: Seq<Seq<char>>,
    tag: Seq<char>,
) -> Map<Seq<char>, Seq<Seq<char>>>
    decreases labels.len(),
{
    if labels.len() == 0 {
        m
    } else {
        set_add(add_all(m, labels.drop_last(), tag), labels.last(), tag)
    }
}

/// The grow-only comment log after a comment op: a comment whose op-id is
/// the one just before it collapses into it.
pub open spec fn push_comment(cs: Seq<CommentView>, op: OpView, text: Seq<char>) -> Seq<CommentView> {
    if cs.len() > 0 && cs.last().id == op.id {
        cs
    } else {
        cs.push(
            CommentView {
                id: op.id,
                actor: op.actor,
                text,
                lamport: op.lamport,
                timestamp: op.timestamp,
                author: op.author,
            },
        )
    }
}

/// The issue after one more op.
pub open spec fn apply_op(st0: IssueView, op: OpView) -> IssueView {
    let st = IssueView {
        max_lamport: if op.lamport > st0.max_lamport {
            op.lamport
        } else {
            st0.max_lamport
        },
        ..st0
    };
    let l = op.lamport;
    let id = op.id;
    match op.kind {
        KindView::Create { title, description, labels, assignee, priority } => IssueView {
            title: st.title.applied(title, l, id),
            description: st.description.applied(description, l, id),
            state: st.state.applied(default_state_view(), l, id),
            labels: add_all(st.labels, labels, id),
            assignees: match assignee {
                Some(a) => set_add(Map::empty(), a, id),
                None => st.assignees,
            },
            priority: match priority {
                Some(p) => st.priority.applied(Some(p), l, id),
                None => st.priority,
            },
            ..st
        },
        KindView::Comment { text } => IssueView { comments: push_comment(st.comments, op, text), ..st },
        KindView::SetTitle { title } => IssueView { title: st.title.applied(title, l, id), ..st },
        KindView::SetDescription { description } => IssueView {
            description: st.description.applied(description, l, id),
            ..st
        },
        KindView::SetState { state, reason, fixed_by } => IssueView {
            state: st.state.applied(StateValView { state, reason, fixed_by }, l, id),
            ..st
        },
        KindView::SetAssignee { assignee } => IssueView {
            assignees: match assignee {
                Some(a) => set_add(Map::empty(), a, id),
                None => Map::empty(),
            },
            ..st
        },
        KindView::SetPriority { priority } => IssueView {
            priority: st.priority.applied(priority, l, id),
            ..st
        },
        KindView::AddLabel { label } => IssueView { labels: set_add(st.labels, label, id), ..st },
        KindView::RemoveLabel { label } => IssueView { labels: st.labels.remove(label), ..st },
        KindView::SetArchived { archived } => IssueView {
            archived: st.archived.applied(archived, l, id),
            ..st
        },
        KindView::AddAssignee { assignee } => IssueView {
            assignees: set_add(st.assignees, assignee, id),
            ..st
        },
        KindView::RemoveAssignee { assignee } => IssueView {
            assignees: st.assignees.remove(assignee),
            ..st
        },
        KindView::SetField { key, value } => IssueView {
            fields: map_apply(st.fields, key, value, l, id),
            ..st
        },
        KindView::AddFile { path, note } => IssueView {
            files: set_add(st.files, path, id),
            file_notes: map_apply(st.file_notes, path, note, l, id),
            ..st
        },
        KindView::SetFileNote { path, note } => IssueView {
            file_notes: map_apply(st.file_notes, path, note, l, id),
            ..st
        },
        KindView::RemoveFile { path } => IssueView { files: st.files.remove(path), ..st },
    }
}

/// Ops applied left to right.
pub open spec fn fold_ops(st: IssueView, s: Seq<OpView>) -> IssueView
    decreases s.len(),
{
    if s.len() == 0 {
        st
    } else {
        apply_op(fold_ops(st, s.drop_last()), s.last())
    }
}

/// The causal order of ops: ascending `(lamport, op-id)`.
pub open spec fn op_lt(a: OpView, b: OpView) -> bool {
    stamp_lt(a.lamport, a.id, b.lamport, b.id)
}

/// Where a stable insertion places `x`: after every op not above it.
pub open spec fn insert_pos(s: Seq<OpView>, x: OpView) -> int
    decreases s.len(),
{
    if s.len() == 0 {
        0
    } else if op_lt(x, s.last()) {
        insert_pos(s.drop_last(), x)
    } else {
        s.len() as int
    }
}

/// The ops stably sorted by `(lamport, op-id)` (what a stable sort gives).
pub open spec fn sort_ops(s: Seq<OpView>) -> Seq<OpView>
    decreases s.len(),
{
    if s.len() == 0 {
        s
    } else {
        let t = sort_ops(s.drop_last());
        t.insert(insert_pos(t, s.last()), s.last())
    }
}

/// Index of the first create op, or the length when there is none.
pub open spec fn find_create(s: Seq<OpView>) -> int
    decreases s.len(),
{
    if s.len() == 0 {
        0
    } else if s[0].kind is Create {
        0
    } else {
        1 + find_create(s.drop_first())
    }
}

/// The issue before any op is applied: unset registers, empty sets.
pub open spec fn initial_issue(uuid: Seq<char>, create: OpView, n: nat) -> IssueView {
    IssueView {
        uuid,
        title: LwwView::unset(Seq::empty()),
        description: LwwView::unset(Seq::empty()),
        state: LwwView::unset(default_state_view()),
        assignees: Map::empty(),
        priority: LwwView::unset(None),
        labels: Map::empty(),
        comments: Seq::empty(),
        archived: LwwView::unset(false),
        fields: Map::empty(),
        files: Map::empty(),
        file_notes: Map::empty(),
        creator: create.actor,
        created_at: create.timestamp,
        op_count: n,
        max_lamport: 0,
    }
}

pub open spec fn ops_view(ops: Seq<Op>) -> Seq<OpView> {
    ops.map_values(|o: Op| o@)
}

/// The folded issue, or `None` when the log has no create op.
pub open spec fn spec_fold(uuid: Seq<char>, ops: Seq<OpView>) -> Option<IssueView> {
    let s = sort_ops(ops);
    let c = find_create(s);
    if c < s.len() {
        Some(fold_ops(initial_issue(uuid, s[c], ops.len()), s))
    } else {
        None
    }
}

pub open spec fn no_create_error(uuid: Seq<char>) -> ErrView {
    ErrView::MalformedOp { commit: uuid, reason: "issue has no Create operation"@ }
}

pub fn op_less(a: &Op, b: &Op) -> (r: bool)
    ensures
        r == op_lt(a@, b@),
{
    stamp_less(a.lamport, a.id.as_str(), b.lamport, b.id.as_str())
}

pub proof fn lemma_sort_len(s: Seq<OpView>)
    ensures
        sort_ops(s).len() == s.len(),
    decreases s.len(),
{
    if s.len() > 0 {
        lemma_sort_len(s.drop_last());
        lemma_insert_pos_bounds(sort_ops(s.drop_last()), s.last());
    }
}

pub proof fn lemma_insert_pos_bounds(s: Seq<OpView>, x: OpView)
    ensures
        0 <= insert_pos(s, x) <= s.len(),
    decreases s.len(),
{
    if s.len() > 0 {
        lemma_insert_pos_bounds(s.drop_last(), x);
    }
}

/// The positions of the ops in causal order.
fn causal_order(ops: &[Op]) -> (order: Vec<usize>)
    ensures
        order@.len() == ops@.len(),
        forall|k: int| 0 <= k < order@.len() ==> (#[trigger] order@[k]) < ops@.len(),
        order@.map_values(|j: usize| ops@[j as int]@) == sort_ops(ops_view(ops@)),
{
    let ghost ov = ops_view(ops@);
    let n = ops.len();
    let mut order: Vec<usize> = Vec::new();
    let mut i: usize = 0;
    while i < n
        invariant
            n == ops@.len(),
            ov == ops_view(ops@),
            i <= n,
            order@.len() == i,
            forall|k: int| 0 <= k < order@.len() ==> (#[trigger] order@[k]) < i,
            order@.map_values(|j: usize| ops@[j as int]@) == sort_ops(ov.take(i as int)),
        decreases n - i,
    {
        let ghost sv = order@.map_values(|j: usize| ops@[j as int]@);
        let ghost x = ops@[i as int]@;
        let mut j = order.len();
        assert(sv.take(j as int) =~= sv);
        while j > 0 && op_less(&ops[i], &ops[order[j - 1]])
            invariant
                n == ops@.len(),
                i < n,
                order@.len() == i,
                forall|k: int| 0 <= k < order@.len() ==> (#[trigger] order@[k]) < i,
                sv == order@.map_values(|j: usize| ops@[j as int]@),
                x == ops@[i as int]@,
                j <= order@.len(),
                insert_pos(sv.take(j as int), x) == insert_pos(sv, x),
            decreases j,
        {
            proof {
                let t = sv.take(j as int);
                assert(t.drop_last() =~= sv.take(j - 1));
                assert(t.last() == sv[j - 1]);
                assert(sv[j - 1] == ops@[order@[j - 1] as int]@);
            }
            j = j - 1;
        }
        proof {
            if j > 0 {
                let t = sv.take(j as int);
                assert(t.last() == sv[j - 1]);
                assert(sv[j - 1] == ops@[order@[j - 1] as int]@);
                assert(insert_pos(t, x) == j);
            } else {
                assert(sv.take(0).len() == 0);
            }
        }
        order.insert(j, i);
        proof {
            let nv = order@.map_values(|j: usize| ops@[j as int]@);
            assert(nv =~= sv.insert(j as int, x));
            assert(ov.take(i + 1).drop_last() =~= ov.take(i as int));
            assert(ov.take(i + 1).last() == x);
            assert forall|k: int| 0 <= k < order@.len() implies (#[trigger] order@[k]) < i + 1 by {
                if k < j {
                } else if k > j {
                }
            }
        }
        i = i + 1;
    }
    assert(ov.take(n as int) =~= ov);
    order
}

impl Issue {
    /// The issue before any op, created by `create`.
    fn start(uuid: &str, create: &Op, n: usize) -> (r: Issue)
        ensures
            r@ == initial_issue(uuid@, create@, n as nat),
    {
        let r = Issue {
            uuid: uuid.to_owned(),
            title: Lww::unset(String::new()),
            description: Lww::unset(String::new()),
            state: Lww::unset(StateVal::open()),
            assignees: OrSet::new(),
            priority: Lww::unset(None),
            labels: OrSet::new(),
            comments: Vec::new(),
            archived: Lww::unset(false),
            fields: LwwMap::new(),
            files: OrSet::new(),
            file_notes: LwwMap::new(),
            creator: clone_string(&create.actor),
            created_at: create.timestamp,
            op_count: n,
            max_lamport: 0,
        };
        assert(r.comments.deep_view() =~= Seq::<CommentView>::empty());
        assert(r@ =~= initial_issue(uuid@, create@, n as nat));
        r
    }

    /// Applies one op to the state.
    fn apply(&mut self, op: &Op)
        ensures
            final(self)@ == apply_op(old(self)@, op@),
    {
        if op.lamport > self.max_lamport {
            self.max_lamport = op.lamport;
        }
        let l = op.lamport;
        let id = op.id.as_str();
        match &op.kind {
            OpKind::Create { title, description, labels, assignee, priority } => {
                self.title.apply(clone_string(title), l, id);
                self.description.apply(clone_string(description), l, id);
                self.state.apply(StateVal::open(), l, id);
                let n = labels.len();
                let mut i: usize = 0;
                let ghost start = self.labels@;
                let ghost pre = self@;
                while i < n
                    invariant
                        n == labels@.len(),
                        i <= n,
                        self.labels@ == add_all(start, labels.deep_view().take(i as int), id@),
                        self@ == (IssueView { labels: self.labels@, ..pre }),
                    decreases n - i,
                {
                    self.labels.add(labels[i].as_str(), id);
                    proof {
                        let t = labels.deep_view().take(i + 1);
                        assert(t.drop_last() =~= labels.deep_view().take(i as int));
                        assert(t.last() == labels@[i as int]@);
                    }
                    i = i + 1;
                }
                assert(labels.deep_view().take(n as int) =~= labels.deep_view());
                match assignee {
                    Some(a) => {
                        self.assignees.clear();
                        self.assignees.add(a.as_str(), id);
                    },
                    None => {},
                }
                match priority {
                    Some(p) => self.priority.apply(Some(clone_string(p)), l, id),
                    None => {},
                }
            },
            OpKind::Comment { text } => {
                let n = self.comments.len();
                let dup = n > 0 && str_eq(self.comments[n - 1].id.as_str(), id);
                if !dup {
                    let ghost before = self.comments.deep_view();
                    self.comments.push(
                        Comment {
                            id: clone_string(&op.id),
                            actor: clone_string(&op.actor),
                            text: clone_string(text),
                            lamport: l,
                            timestamp: op.timestamp,
                            author: clone_opt(&op.author),
                        },
                    );
                    assert(self.comments.deep_view() =~= push_comment(before, op@, text@));
                }
            },
            OpKind::SetTitle { title } => self.title.apply(clone_string(title), l, id),
            OpKind::SetDescription { description } => self.description.apply(
                clone_string(description),
                l,
                id,
            ),
            OpKind::SetState { state, reason, fixed_by } => self.state.apply(
                StateVal { state: *state, reason: clone_opt(reason), fixed_by: clone_opt(fixed_by) },
                l,
                id,
            ),
            OpKind::SetAssignee { assignee } => {
                self.assignees.clear();
                match assignee {
                    Some(a) => self.assignees.add(a.as_str(), id),
                    None => {},
                }
            },
            OpKind::SetPriority { priority } => self.priority.apply(clone_opt(priority), l, id),
            OpKind::AddLabel { label } => self.labels.add(label.as_str(), id),
            OpKind::RemoveLabel { label } => self.labels.remove(label.as_str()),
            OpKind::SetArchived { archived } => self.archived.apply(*archived, l, id),
            OpKind::AddAssignee { assignee } => self.assignees.add(assignee.as_str(), id),
            OpKind::RemoveAssignee { assignee } => self.assignees.remove(assignee.as_str()),
            OpKind::SetField { key, value } => self.fields.apply(
                key.as_str(),
                clone_string(value),
                l,
                id,
            ),
            OpKind::AddFile { path, note } => {
                self.files.add(path.as_str(), id);
                self.file_notes.apply(path.as_str(), clone_string(note), l, id);
            },
            OpKind::SetFileNote { path, note } => self.file_notes.apply(
                path.as_str(),
                clone_string(note),
                l,
                id,
            ),
            OpKind::RemoveFile { path } => self.files.remove(path.as_str()),
        }
    }

    /// Fold an op log into current issue state.
    ///
    /// Ops are applied in causal order, ascending `(lamport, op-id)` (a stable
    /// sort, so equal stamps keep their read order). The creator is the actor
    /// of the first create op in that order; a log without one is malformed.
    pub fn fold(uuid: &str, ops: &[Op]) -> (r: Result<Issue, GliError>)
        ensures
            match r {
                Ok(issue) => spec_fold(uuid@, ops_view(ops@)) == Some(issue@),
                Err(e) => spec_fold(uuid@, ops_view(ops@)) is None && e@ == no_create_error(
                    uuid@,
                ),
            },
    {
        let ghost ov = ops_view(ops@);
        let order = causal_order(ops);
        let ghost s = sort_ops(ov);
        let n = order.len();
        proof {
            lemma_sort_len(ov);
            assert forall|k: int| 0 <= k < n implies #[trigger] s[k] == ops@[order@[k] as int]@ by {
                assert(order@.map_values(|j: usize| ops@[j as int]@)[k] == ops@[order@[k] as int]@);
            }
        }
        let mut c: usize = 0;
        assert(s.subrange(0, n as int) =~= s);
        while c < n && !matches!(ops[order[c]].kind, OpKind::Create { .. })
            invariant
                n == order@.len(),
                n == s.len(),
                forall|k: int| 0 <= k < order@.len() ==> (#[trigger] order@[k]) < ops@.len(),
                forall|k: int| 0 <= k < n ==> #[trigger] s[k] == ops@[order@[k] as int]@,
                c <= n,
                find_create(s.subrange(c as int, n as int)) + c == find_create(s),
            decreases n - c,
        {
            proof {
                let t = s.subrange(c as int, n as int);
                assert(t.drop_first() =~= s.subrange(c + 1, n as int));
                assert(t[0] == s[c as int]);
            }
            c = c + 1;
        }
        proof {
            if c < n {
                let t = s.subrange(c as int, n as int);
                assert(t[0] == s[c as int]);
            }
        }
        if c == n {
            let mut reason = String::new();
            crate::text::push_str(&mut reason, "issue has no Create operation");
            return Err(GliError::MalformedOp { commit: uuid.to_owned(), reason });
        }
        let mut issue = Issue::start(uuid, &ops[order[c]], ops.len());
        let ghost st0 = issue@;
        let mut k: usize = 0;
        while k < n
            invariant
                n == order@.len(),
                n == s.len(),
                forall|q: int| 0 <= q < order@.len() ==> (#[trigger] order@[q]) < ops@.len(),
                forall|q: int| 0 <= q < n ==> #[trigger] s[q] == ops@[order@[q] as int]@,
                k <= n,
                issue@ == fold_ops(st0, s.take(k as int)),
            decreases n - k,
        {
            issue.apply(&ops[order[k]]);
            proof {
                let t = s.take(k + 1);
                assert(t.drop_last() =~= s.take(k as int));
                assert(t.last() == s[k as int]);
            }
            k = k + 1;
        }
        assert(s.take(n as int) =~= s);
        Ok(issue)
    }

    pub fn title(&self) -> (r: &str)
        ensures
            r@ == self@.title.value,
    {
        self.title.get().as_str()
    }

    pub fn description(&self) -> (r: &str)
        ensures
            r@ == self@.description.value,
    {
        self.description.get().as_str()
    }

    pub fn state(&self) -> (r: &StateVal)
        ensures
            r.deep_view() == self@.state.value,
    {
        self.state.get()
    }

    /// The first assignee (in sorted order), if any.
    pub fn assignee(&self) -> (r: Option<&str>)
        ensures
            match r {
                Some(a) => set_present(self@.assignees, a@) && forall|y: Seq<char>|
                    set_present(self@.assignees, y) && y != a@ ==> seq_lt(a@, y),
                None => forall|y: Seq<char>| !set_present(self@.assignees, y),
            },
    {
        match self.assignees.first() {
            Some(a) => Some(a.as_str()),
            None => None,
        }
    }

    /// Every assignee, sorted.
    pub fn assignees(&self) -> (r: Vec<String>)
        ensures
            strictly_sorted(r.deep_view()),
            forall|x: Seq<char>| r.deep_view().contains(x) <==> set_present(self@.assignees, x),
    {
        self.assignees.values()
    }

    pub fn priority(&self) -> (r: Option<&str>)
        ensures
            match r {
                Some(p) => self@.priority.value == Some(p@),
                None => self@.priority.value is None,
            },
    {
        match self.priority.get() {
            Some(p) => Some(p.as_str()),
            None => None,
        }
    }

    /// Present labels, sorted.
    pub fn labels(&self) -> (r: Vec<String>)
        ensures
            strictly_sorted(r.deep_view()),
            forall|x: Seq<char>| r.deep_view().contains(x) <==> set_present(self@.labels, x),
    {
        self.labels.values()
    }

    pub fn archived(&self) -> (r: bool)
        ensures
            r == self@.archived.value,
    {
        *self.archived.get()
    }

    /// `(key, value)` of every custom field with a non-empty value, by key.
    pub fn fields(&self) -> (r: Vec<(String, String)>)
        ensures
            sorted_keys(crate::trailer::pair_views(r@)),
            forall|k: Seq<char>|
                has_key(crate::trailer::pair_views(r@), k) <==> (self@.fields.contains_key(k)
                    && self@.fields[k].value.len() > 0),
            forall|i: int|
                0 <= i < r@.len() ==> self@.fields[(#[trigger] r@[i]).0@].value == r@[i].1@,
    {
        self.fields.listing()
    }

    /// Every related file path, sorted, with its note when the note is not
    /// empty.
    pub fn files(&self) -> (r: Vec<(String, Option<String>)>)
        ensures
            r@.len() == self.files.values_spec().len(),
            forall|i: int|
                0 <= i < r@.len() ==> {
                    &&& (#[trigger] r@[i]).0@ == self.files.values_spec()[i]
                    &&& r@[i].1.deep_view() == note_of(self@.file_notes, r@[i].0@)
                },
            strictly_sorted(self.files.values_spec()),
            forall|x: Seq<char>|
                self.files.values_spec().contains(x) <==> set_present(self@.files, x),
    {
        let paths = self.files.values();
        let mut r: Vec<(String, Option<String>)> = Vec::new();
        let n = paths.len();
        let mut i: usize = 0;
        while i < n
            invariant
                n == paths@.len(),
                i <= n,
                r@.len() == i,
                forall|q: int|
                    0 <= q < i ==> {
                        &&& (#[trigger] r@[q]).0@ == paths@[q]@
                        &&& r@[q].1.deep_view() == note_of(self@.file_notes, r@[q].0@)
                    },
            decreases n - i,
        {
            let note = match self.file_notes.get(paths[i].as_str()) {
                Some(v) => if v.as_str().is_empty() {
                    None
                } else {
                    Some(v.clone())
                },
                None => None,
            };
            r.push((paths[i].clone(), note));
            i = i + 1;
        }
        proof {
            self.files.lemma_values_spec(paths.deep_view());
            assert forall|q: int| 0 <= q < n implies paths.deep_view()[q] == paths@[q]@ by {}
        }
        r
    }
}

/// The note of a file path: its register's value when set and not empty.
pub open spec fn note_of(notes: Map<Seq<char>, LwwView<Seq<char>>>, path: Seq<char>) -> Option<Seq<char>> {
    if notes.contains_key(path) && notes[path].value.len() > 0 {
        Some(notes[path].value)
    } else {
        None
    }
}

impl OrSet {
    /// The present elements in sorted order (what `values` returns).
    pub closed spec fn values_spec(&self) -> Seq<Seq<char>> {
        choose|s: Seq<Seq<char>>| strictly_sorted(s) && forall|x: Seq<char>| s.contains(x) <==> set_present(self@, x)
    }

    pub proof fn lemma_values_spec(&self, s: Seq<Seq<char>>)
        requires
            strictly_sorted(s),
            forall|x: Seq<char>| s.contains(x) <==> set_present(self@, x),
        ensures
            self.values_spec() == s,
    {
        let t = self.values_spec();
        assert(strictly_sorted(t) && forall|x: Seq<char>| t.contains(x) <==> set_present(self@, x));
        crate::keyed::lemma_strictly_sorted_same_set(t, s);
    }
}

// ---------------------------------------------------------------------------
// Small model helpers
// ---------------------------------------------------------------------------

pub open spec fn state_str(s: State) -> Seq<char> {
    match s {
        State::Open => "open"@,
        State::Closed => "closed"@,
    }
}

/// `open` or `closed`, after trimming, in any ASCII case.
pub open spec fn spec_state_parse(s: Seq<char>) -> Option<State> {
    let t = lower_seq(trim(s));
    if t == "open"@ {
        Some(State::Open)
    } else if t == "closed"@ {
        Some(State::Closed)
    } else {
        None
    }
}

impl State {
    pub fn as_str(&self) -> (r: &'static str)
        ensures
            r@ == state_str(*self),
    {
        match self {
            State::Open => "open",
            State::Closed => "closed",
        }
    }

    pub fn parse(s: &str) -> (r: Option<State>)
        ensures
            r == spec_state_parse(s@),
    {
        let v = to_chars(s);
        let (a, b) = trim_range(v.as_slice());
        let t = crate::text::copy_range(v.as_slice(), a, b);
        let l = lower_chars(t.as_slice());
        let open = to_chars("open");
        let closed = to_chars("closed");
        if crate::text::chars_eq(l.as_slice(), open.as_slice()) {
            Some(State::Open)
        } else if crate::text::chars_eq(l.as_slice(), closed.as_slice()) {
            Some(State::Closed)
        } else {
            None
        }
    }
}

/// The `Op:` trailer slug of each kind of operation.
pub open spec fn slug_of(k: KindView) -> Seq<char> {
    match k {
        KindView::Create { .. } => "create"@,
        KindView::Comment { .. } => "comment"@,
        KindView::SetTitle { .. } => "set-title"@,
        KindView::SetDescription { .. } => "set-description"@,
        KindView::SetState { .. } => "set-state"@,
        KindView::SetAssignee { .. } => "set-assignee"@,
        KindView::SetPriority { .. } => "set-priority"@,
        KindView::AddLabel { .. } => "add-label"@,
        KindView::RemoveLabel { .. } => "remove-label"@,
        KindView::SetArchived { .. } => "set-archived"@,
        KindView::AddAssignee { .. } => "add-assignee"@,
        KindView::RemoveAssignee { .. } => "remove-assignee"@,
        KindView::SetField { .. } => "set-field"@,
        KindView::AddFile { .. } => "add-file"@,
        KindView::SetFileNote { .. } => "set-file-note"@,
        KindView::RemoveFile { .. } => "remove-file"@,
    }
}

impl OpKind {
    /// The `Op:` trailer slug identifying this operation type.
    pub fn slug(&self) -> (r: &'static str)
        ensures
            r@ == slug_of(self@),
    {
        match self {
            OpKind::Create { .. } => "create",
            OpKind::Comment { .. } => "comment",
            OpKind::SetTitle { .. } => "set-title",
            OpKind::SetDescription { .. } => "set-description",
            OpKind::SetState { .. } => "set-state",
            OpKind::SetAssignee { .. } => "set-assignee",
            OpKind::SetPriority { .. } => "set-priority",
            OpKind::AddLabel { .. } => "add-label",
            OpKind::RemoveLabel { .. } => "remove-label",
            OpKind::SetArchived { .. } => "set-archived",
            OpKind::AddAssignee { .. } => "add-assignee",
            OpKind::RemoveAssignee { .. } => "remove-assignee",
            OpKind::SetField { .. } => "set-field",
            OpKind::AddFile { .. } => "add-file",
            OpKind::SetFileNote { .. } => "set-file-note",
            OpKind::RemoveFile { .. } => "remove-file",
        }
    }
}

/// The greatest lamport clock among the ops (0 for none).
pub open spec fn max_clock(s: Seq<OpView>) -> u64
    decreases s.len(),
{
    if s.len() == 0 {
        0
    } else {
        let m = max_clock(s.drop_last());
        if s.last().lamport > m {
            s.last().lamport
        } else {
            m
        }
    }
}

pub proof fn lemma_max_clock(s: Seq<OpView>)
    ensures
        forall|i: int| 0 <= i < s.len() ==> (#[trigger] s[i]).lamport <= max_clock(s),
        s.len() > 0 ==> exists|i: int| 0 <= i < s.len() && (#[trigger] s[i]).lamport == max_clock(s),
    decreases s.len(),
{
    if s.len() > 0 {
        lemma_max_clock(s.drop_last());
        assert forall|i: int| 0 <= i < s.len() implies (#[trigger] s[i]).lamport <= max_clock(s) by {
            if i < s.len() - 1 {
                assert(s[i] == s.drop_last()[i]);
            }
        }
        if s.last().lamport > max_clock(s.drop_last()) || s.len() == 1 {
            assert(s[s.len() - 1].lamport == s.last().lamport);
            if s.len() == 1 {
                assert(max_clock(s.drop_last()) == 0);
            }
        } else {
            let i = choose|i: int| 0 <= i < s.drop_last().len() && (#[trigger] s.drop_last()[i]).lamport == max_clock(s.drop_last());
            assert(s[i] == s.drop_last()[i]);
        }
    }
}

/// The greatest Lamport clock among the ops (0 for none).
pub fn max_lamport(ops: &[Op]) -> (r: u64)
    ensures
        r == max_clock(ops_view(ops@)),
{
    let ghost ov = ops_view(ops@);
    let mut m: u64 = 0;
    let n = ops.len();
    let mut i: usize = 0;
    while i < n
        invariant
            n == ops@.len(),
            ov == ops_view(ops@),
            i <= n,
            m == max_clock(ov.take(i as int)),
        decreases n - i,
    {
        if ops[i].lamport > m {
            m = ops[i].lamport;
        }
        proof {
            let t = ov.take(i + 1);
            assert(t.drop_last() =~= ov.take(i as int));
            assert(t.last() == ops@[i as int]@);
        }
        i = i + 1;
    }
    assert(ov.take(n as int) =~= ov);
    m
}

/// The next Lamport clock value for a new op given the ops already seen.
pub fn next_lamport(ops: &[Op]) -> (r: u64)
    requires
        max_clock(ops_view(ops@)) < u64::MAX,
    ensures
        r == max_clock(ops_view(ops@)) + 1,
{
    max_lamport(ops) + 1
}

/// Why a label is refused, if it is: blank, or holding a comma or a line
/// break (the `Labels:` trailer is comma-separated and single-line).
pub open spec fn label_problem(label: Seq<char>) -> Option<Seq<char>> {
    if is_blank(label) {
        Some("must not be empty"@)
    } else if contains_char(label, ',') {
        Some("must not contain a comma"@)
    } else if contains_char(label, '\n') || contains_char(label, '\r') {
        Some("must not contain a newline"@)
    } else {
        None
    }
}

fn has_char(v: &[char], c: char) -> (r: bool)
    ensures
        r == contains_char(v@, c),
{
    let i = index_of(v, c);
    proof {
        lemma_idx_of(v@, c);
    }
    i < v.len()
}

/// Validates a label value: labels are single-line and comma-free, since a
/// comma or newline would be mangled by the `Labels:` trailer.
pub fn validate_label(label: &str) -> (r: Result<(), GliError>)
    ensures
        match label_problem(label@) {
            None => r is Ok,
            Some(reason) => r matches Err(e) && e@ == (ErrView::InvalidLabel {
                label: label@,
                reason,
            }),
        },
{
    let v = to_chars(label);
    let (a, b) = trim_range(v.as_slice());
    let reason: &str = if a == b {
        "must not be empty"
    } else if has_char(v.as_slice(), ',') {
        "must not contain a comma"
    } else if has_char(v.as_slice(), '\n') || has_char(v.as_slice(), '\r') {
        "must not contain a newline"
    } else {
        return Ok(());
    };
    Err(GliError::InvalidLabel { label: label.to_owned(), reason: reason.to_owned() })
}

} // verus!
