//! The machine-readable issue summary (`--format json`).
//!
//! These records are the public JSON schema: deliberately separate from the
//! internal [`Issue`] so the output can stay stable while the model evolves.
//! The program serialises them; here they are built and their contents
//! stated.
use crate::cache::{display_or_short, Cache};
use crate::id::DisplayIdView;
use crate::keyed::{has_key, sorted_keys, strictly_sorted};
use crate::model::{note_of, set_present, state_str, Comment, Issue};
use crate::trailer::pair_views;
use vstd::prelude::*;

verus! {

pub struct IssueJson {
    /// Full UUIDv7 (truth id).
    pub uuid: String,
    /// The display handle (`#3`, or `alice-#3` when the number is shared).
    pub handle: String,
    /// Per-actor display number.
    pub number: usize,
    /// Actor-scoped display nonce (may drift; not a permanent handle).
    pub nonce: String,
    /// Short uuid prefix (a permanent handle).
    pub short: String,
    pub title: String,
    pub description: String,
    /// "open" or "closed".
    pub state: String,
    pub reason: Option<String>,
    pub fixed_by: Option<String>,
    /// The first assignee, kept for compatibility.
    pub assignee: Option<String>,
    pub assignees: Vec<String>,
    pub priority: Option<String>,
    pub labels: Vec<String>,
    /// Custom fields `(key, value)`, by key.
    pub fields: Vec<(String, String)>,
    /// Related files `(path, note)`, by path.
    pub files: Vec<(String, Option<String>)>,
    pub archived: bool,
    pub creator: String,
    pub comment_count: usize,
    pub comments: Vec<CommentJson>,
}

pub struct CommentJson {
    pub id: String,
    pub actor: String,
    pub author: Option<String>,
    pub text: String,
}

/// The JSON record of a comment holds the comment's identity and text.
pub open spec fn comment_json_of(j: CommentJson, c: Comment) -> bool {
    &&& j.id@ == c.id@
    &&& j.actor@ == c.actor@
    &&& j.author.deep_view() == c.author.deep_view()
    &&& j.text@ == c.text@
}

fn owned_opt(o: Option<&str>) -> (r: Option<String>)
    ensures
        match o {
            Some(s) => r matches Some(x) && x@ == s@,
            None => r is None,
        },
{
    match o {
        Some(s) => Some(s.to_owned()),
        None => None,
    }
}

/// Builds the JSON record for one issue.
pub fn issue_json(cache: &Cache, issue: &Issue) -> (r: IssueJson)
    ensures
        ({
            let d: DisplayIdView = display_or_short(cache.display@, issue.uuid@);
            let v = issue@;
            &&& r.uuid@ == issue.uuid@
            &&& r.handle@ == d.handle
            &&& r.number as nat == d.number
            &&& r.nonce@ == d.nonce
            &&& r.short@ == d.short
            &&& r.title@ == v.title.value
            &&& r.description@ == v.description.value
            &&& r.state@ == state_str(v.state.value.state)
            &&& r.reason.deep_view() == v.state.value.reason
            &&& r.fixed_by.deep_view() == v.state.value.fixed_by
            &&& match r.assignee {
                Some(a) => set_present(v.assignees, a@) && forall|y: Seq<char>|
                    set_present(v.assignees, y) && y != a@ ==> crate::text::seq_lt(a@, y),
                None => forall|y: Seq<char>| !set_present(v.assignees, y),
            }
            &&& strictly_sorted(r.assignees.deep_view())
            &&& forall|x: Seq<char>| r.assignees.deep_view().contains(x) <==> set_present(v.assignees, x)
            &&& r.priority.deep_view() == v.priority.value
            &&& strictly_sorted(r.labels.deep_view())
            &&& forall|x: Seq<char>| r.labels.deep_view().contains(x) <==> set_present(v.labels, x)
            &&& sorted_keys(pair_views(r.fields@))
            &&& forall|k: Seq<char>| has_key(pair_views(r.fields@), k) <==> (v.fields.contains_key(k)
                && v.fields[k].value.len() > 0)
            &&& forall|i: int| 0 <= i < r.fields@.len() ==> v.fields[(#[trigger] r.fields@[i]).0@].value
                == r.fields@[i].1@
            &&& r.files@.len() == issue.files.values_spec().len()
            &&& forall|i: int| 0 <= i < r.files@.len() ==> {
                &&& (#[trigger] r.files@[i]).0@ == issue.files.values_spec()[i]
                &&& r.files@[i].1.deep_view() == note_of(v.file_notes, r.files@[i].0@)
            }
            &&& r.archived == v.archived.value
            &&& r.creator@ == issue.creator@
            &&& r.comment_count == issue.comments@.len()
            &&& r.comments@.len() == issue.comments@.len()
            &&& forall|i: int| 0 <= i < r.comments@.len() ==> comment_json_of(
                #[trigger] r.comments@[i],
                issue.comments@[i],
            )
        }),
{
    let d = cache.display_of(issue.uuid.as_str());
    let st = issue.state();
    let mut comments: Vec<CommentJson> = Vec::new();
    let n = issue.comments.len();
    let mut i: usize = 0;
    while i < n
        invariant
            n == issue.comments@.len(),
            i <= n,
            comments@.len() == i,
            forall|k: int| 0 <= k < i ==> comment_json_of(#[trigger] comments@[k], issue.comments@[k]),
        decreases n - i,
    {
        let c = &issue.comments[i];
        let author = match &c.author {
            Some(a) => Some(a.clone()),
            None => None,
        };
        comments.push(
            CommentJson { id: c.id.clone(), actor: c.actor.clone(), author, text: c.text.clone() },
        );
        i = i + 1;
    }
    let reason = match &st.reason {
        Some(x) => Some(x.clone()),
        None => None,
    };
    let fixed_by = match &st.fixed_by {
        Some(x) => Some(x.clone()),
        None => None,
    };
    IssueJson {
        uuid: issue.uuid.clone(),
        handle: d.handle,
        number: d.number,
        nonce: d.nonce,
        short: d.short,
        title: issue.title().to_owned(),
        description: issue.description().to_owned(),
        state: st.state.as_str().to_owned(),
        reason,
        fixed_by,
        assignee: owned_opt(issue.assignee()),
        assignees: issue.assignees(),
        priority: owned_opt(issue.priority()),
        labels: issue.labels(),
        fields: issue.fields(),
        files: issue.files(),
        archived: issue.archived(),
        creator: issue.creator.clone(),
        comment_count: n,
        comments,
    }
}

} // verus!
