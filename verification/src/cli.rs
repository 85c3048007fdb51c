//! What the commands decide: which issues a listing shows and in what
//! order, which operations an edit becomes, and the text each command
//! reports. The program parses arguments, talks to git and prints; the
//! decisions and the text are here.
use crate::cache::{display_or_short, Cache};
use crate::id::DisplayIdView;
use crate::keyed::{has_key, lemma_keys_strictly_sorted, lemma_strictly_sorted_same_set, sorted_keys, strictly_sorted};
use crate::error::{join_comma, join_comma_exec};
use crate::fsck::sha7;
use crate::model::{
    note_of, ops_view, set_present, slug_of, state_str, Comment, CommentView, Issue, IssueView,
    KindView, LwwView, Op, OpKind, OpView, State, StateVal, StateValView,
};
use crate::wire::{first_line, first_line_of};
use crate::text::{dec, split_on};
use crate::text::seq_lt;
use crate::trailer::pair_views;
use vstd::prelude::*;

verus! {

// ---------------------------------------------------------------------------
// Text helpers
// ---------------------------------------------------------------------------

/// `str::to_lowercase` (full Unicode lowercase mapping) of a text.
pub uninterp spec fn lowercase(s: Seq<char>) -> Seq<char>;

/// Trusted: `str::to_lowercase`. Its result depends on the text alone; the
/// Unicode case tables it applies are not restated here.
#[verifier::external_body]
pub(crate) fn to_lowercase(s: &str) -> (r: String)
    ensures
        r@ == lowercase(s@),
{
    s.to_lowercase()
}

/// `t` occurs in `s` (`str::contains`; the empty text occurs everywhere).
pub open spec fn has_sub(s: Seq<char>, t: Seq<char>) -> bool {
    exists|i: int| 0 <= i <= s.len() - t.len() && #[trigger] s.subrange(i, i + t.len()) == t
}

pub fn contains_str(s: &str, t: &str) -> (r: bool)
    ensures
        r == has_sub(s@, t@),
{
    let sv = crate::text::to_chars(s);
    let tv = crate::text::to_chars(t);
    if tv.len() > sv.len() {
        return false;
    }
    let last = sv.len() - tv.len();
    let sl = sv.len();
    let mut i: usize = 0;
    loop
        invariant
            sl == sv@.len(),
            sv@ == s@,
            tv@ == t@,
            last == sv@.len() - tv@.len(),
            tv@.len() <= sv@.len(),
            i <= last,
            forall|k: int| 0 <= k < i ==> #[trigger] sv@.subrange(k, k + tv@.len()) != tv@,
        decreases last - i,
    {
        let mut j: usize = 0;
        let mut same = true;
        while j < tv.len()
            invariant
                sl == sv@.len(),
                sv@ == s@,
                tv@ == t@,
                i <= last,
                last == sv@.len() - tv@.len(),
                j <= tv@.len(),
                same == forall|q: int| 0 <= q < j ==> sv@[i + q] == tv@[q],
            decreases tv@.len() - j,
        {
            assert(i + j < sv@.len());
            if sv[i + j] != tv[j] {
                same = false;
            }
            j = j + 1;
        }
        if same {
            assert(sv@.subrange(i as int, i + tv@.len()) =~= tv@);
            return true;
        }
        assert(sv@.subrange(i as int, i + tv@.len()) != tv@) by {
            let q = choose|q: int| 0 <= q < tv@.len() && sv@[i + q] != tv@[q];
            assert(sv@.subrange(i as int, i + tv@.len())[q] == sv@[i + q]);
        }
        if i == last {
            return false;
        }
        i = i + 1;
    }
}

// ---------------------------------------------------------------------------
// Listing
// ---------------------------------------------------------------------------

/// Case-insensitive substring search over an issue's title, description,
/// labels and comment texts; `term` is expected already lowercased.
pub open spec fn matches_search(v: IssueView, term: Seq<char>) -> bool {
    ||| has_sub(lowercase(v.title.value), term)
    ||| has_sub(lowercase(v.description.value), term)
    ||| exists|l: Seq<char>| set_present(v.labels, l) && #[trigger] has_sub(lowercase(l), term)
    ||| exists|i: int| 0 <= i < v.comments.len() && #[trigger] has_sub(lowercase(v.comments[i].text), term)
}

pub fn issue_matches_search(issue: &Issue, term: &str) -> (r: bool)
    ensures
        r == matches_search(issue@, term@),
{
    let t = to_lowercase(issue.title());
    if contains_str(t.as_str(), term) {
        return true;
    }
    let d = to_lowercase(issue.description());
    if contains_str(d.as_str(), term) {
        return true;
    }
    let labels = issue.labels();
    let n = labels.len();
    let mut i: usize = 0;
    while i < n
        invariant
            n == labels@.len(),
            i <= n,
            forall|x: Seq<char>| labels.deep_view().contains(x) <==> set_present(issue@.labels, x),
            forall|k: int| 0 <= k < i ==> !has_sub(lowercase(#[trigger] labels@[k]@), term@),
        decreases n - i,
    {
        let l = to_lowercase(labels[i].as_str());
        if contains_str(l.as_str(), term) {
            assert(labels.deep_view()[i as int] == labels@[i as int]@);
            assert(labels.deep_view().contains(labels@[i as int]@));
            return true;
        }
        i = i + 1;
    }
    assert forall|x: Seq<char>| set_present(issue@.labels, x) implies !#[trigger] has_sub(
        lowercase(x),
        term@,
    ) by {
        assert(labels.deep_view().contains(x));
        let k = choose|k: int| 0 <= k < labels.deep_view().len() && labels.deep_view()[k] == x;
        assert(labels@[k]@ == x);
    }
    let m = issue.comments.len();
    let mut i: usize = 0;
    while i < m
        invariant
            m == issue.comments@.len(),
            i <= m,
            forall|k: int| 0 <= k < i ==> !has_sub(lowercase(#[trigger] issue@.comments[k].text), term@),
        decreases m - i,
    {
        let c = to_lowercase(issue.comments[i].text.as_str());
        assert(issue@.comments[i as int].text == issue.comments@[i as int].text@);
        if contains_str(c.as_str(), term) {
            return true;
        }
        i = i + 1;
    }
    false
}

/// The filters of a listing; all of them must hold.
pub struct ListFilter {
    /// Only issues in this state.
    pub state: Option<State>,
    /// Only issues carrying every one of these labels.
    pub labels: Vec<String>,
    /// Only issues with this assignee among theirs.
    pub assignee: Option<String>,
    /// Only issues with this priority.
    pub priority: Option<String>,
    /// Only issues created by this actor.
    pub creator: Option<String>,
    /// Only issues matching this search term, in any case.
    pub search: Option<String>,
    /// Only archived issues.
    pub archived: bool,
    /// Archived and active issues alike.
    pub all: bool,
}

/// An issue passes every filter of a listing. Archived issues are hidden
/// unless `--archived` (only them) or `--all` (both) is given.
pub open spec fn listed(v: IssueView, f: ListFilter) -> bool {
    &&& if f.all {
        true
    } else if f.archived {
        v.archived.value
    } else {
        !v.archived.value
    }
    &&& match f.state {
        Some(s) => v.state.value.state == s,
        None => true,
    }
    &&& forall|i: int| 0 <= i < f.labels@.len() ==> set_present(v.labels, #[trigger] f.labels@[i]@)
    &&& match f.assignee {
        Some(a) => set_present(v.assignees, a@),
        None => true,
    }
    &&& match f.priority {
        Some(p) => v.priority.value == Some(p@),
        None => true,
    }
    &&& match f.creator {
        Some(c) => v.creator == c@,
        None => true,
    }
    &&& match f.search {
        Some(t) => matches_search(v, lowercase(t@)),
        None => true,
    }
}

pub fn issue_listed(issue: &Issue, f: &ListFilter) -> (r: bool)
    ensures
        r == listed(issue@, *f),
{
    let visible = if f.all {
        true
    } else if f.archived {
        issue.archived()
    } else {
        !issue.archived()
    };
    if !visible {
        return false;
    }
    match f.state {
        Some(s) => {
            if issue.state().state != s {
                return false;
            }
        },
        None => {},
    }
    let n = f.labels.len();
    let mut i: usize = 0;
    while i < n
        invariant
            n == f.labels@.len(),
            i <= n,
            forall|k: int| 0 <= k < i ==> set_present(issue@.labels, #[trigger] f.labels@[k]@),
        decreases n - i,
    {
        if !issue.labels.contains(f.labels[i].as_str()) {
            return false;
        }
        i = i + 1;
    }
    match &f.assignee {
        Some(a) => {
            let all = issue.assignees();
            let mut found = false;
            let mut k: usize = 0;
            while k < all.len()
                invariant
                    k <= all@.len(),
                    forall|x: Seq<char>| all.deep_view().contains(x) <==> set_present(issue@.assignees, x),
                    found == exists|q: int| 0 <= q < k && (#[trigger] all@[q])@ == a@,
                decreases all@.len() - k,
            {
                if crate::text::str_eq(all[k].as_str(), a.as_str()) {
                    found = true;
                }
                k = k + 1;
            }
            proof {
                if found {
                    let q = choose|q: int| 0 <= q < k && (#[trigger] all@[q])@ == a@;
                    assert(all.deep_view()[q] == a@);
                    assert(all.deep_view().contains(a@));
                } else if set_present(issue@.assignees, a@) {
                    assert(all.deep_view().contains(a@));
                    let q = choose|q: int| 0 <= q < all.deep_view().len() && all.deep_view()[q] == a@;
                    assert(all@[q]@ == a@);
                }
            }
            if !found {
                return false;
            }
        },
        None => {},
    }
    match &f.priority {
        Some(p) => {
            match issue.priority() {
                Some(x) => {
                    if !crate::text::str_eq(x, p.as_str()) {
                        return false;
                    }
                },
                None => {
                    return false;
                },
            }
        },
        None => {},
    }
    match &f.creator {
        Some(c) => {
            if !crate::text::str_eq(issue.creator.as_str(), c.as_str()) {
                return false;
            }
        },
        None => {},
    }
    match &f.search {
        Some(t) => {
            let term = to_lowercase(t.as_str());
            issue_matches_search(issue, term.as_str())
        },
        None => true,
    }
}

// ---------------------------------------------------------------------------
// Sorting a listing
// ---------------------------------------------------------------------------

/// Row `a` goes strictly before row `b`: ascending keys, or descending.
pub open spec fn goes_before(keys: Seq<Seq<char>>, desc: bool, a: int, b: int) -> bool {
    if desc {
        seq_lt(keys[b], keys[a])
    } else {
        seq_lt(keys[a], keys[b])
    }
}

/// Where a stable insertion puts row `x`: after every row it does not go
/// before.
pub open spec fn row_pos(keys: Seq<Seq<char>>, desc: bool, r: Seq<int>, x: int) -> int
    decreases r.len(),
{
    if r.len() == 0 {
        0
    } else if goes_before(keys, desc, x, r.last()) {
        row_pos(keys, desc, r.drop_last(), x)
    } else {
        r.len() as int
    }
}

/// The rows stably sorted by their keys (what a stable sort gives).
pub open spec fn sort_rows(keys: Seq<Seq<char>>, desc: bool, s: Seq<int>) -> Seq<int>
    decreases s.len(),
{
    if s.len() == 0 {
        s
    } else {
        let t = sort_rows(keys, desc, s.drop_last());
        t.insert(row_pos(keys, desc, t, s.last()), s.last())
    }
}

proof fn lemma_row_pos_bounds(keys: Seq<Seq<char>>, desc: bool, r: Seq<int>, x: int)
    ensures
        0 <= row_pos(keys, desc, r, x) <= r.len(),
    decreases r.len(),
{
    if r.len() > 0 {
        lemma_row_pos_bounds(keys, desc, r.drop_last(), x);
    }
}

proof fn lemma_sort_rows_len(keys: Seq<Seq<char>>, desc: bool, s: Seq<int>)
    ensures
        sort_rows(keys, desc, s).len() == s.len(),
    decreases s.len(),
{
    if s.len() > 0 {
        lemma_sort_rows_len(keys, desc, s.drop_last());
        lemma_row_pos_bounds(keys, desc, sort_rows(keys, desc, s.drop_last()), s.last());
    }
}

/// The rows (indices of `issues`) that pass the filter, in issue order.
pub open spec fn listed_rows(issues: Seq<Issue>, f: ListFilter, m: int) -> Seq<int>
    decreases m,
{
    if m <= 0 {
        Seq::empty()
    } else if listed(issues[m - 1]@, f) {
        listed_rows(issues, f, m - 1).push(m - 1)
    } else {
        listed_rows(issues, f, m - 1)
    }
}

/// The sort key of each issue for a sort order: the lowercased title for
/// `title`, else the uuid.
pub open spec fn sort_keys(issues: Seq<Issue>, sort: Seq<char>) -> Seq<Seq<char>> {
    issues.map_values(
        |i: Issue|
            if sort == "title"@ {
                lowercase(i@.title.value)
            } else {
                i.uuid@
            },
    )
}

/// Newest first unless `oldest` or `title` is asked for.
pub open spec fn sort_desc(sort: Seq<char>) -> bool {
    sort != "oldest"@ && sort != "title"@
}

/// The rows of a listing: the issues that pass the filter, ordered newest
/// first (descending uuid, since a UUIDv7 is time-ordered), or oldest first,
/// or by lowercased title; ties keep issue order.
pub open spec fn spec_list_rows(issues: Seq<Issue>, f: ListFilter, sort: Seq<char>) -> Seq<int> {
    sort_rows(sort_keys(issues, sort), sort_desc(sort), listed_rows(issues, f, issues.len() as int))
}

fn key_before(keys: &Vec<String>, desc: bool, a: usize, b: usize) -> (r: bool)
    requires
        a < keys@.len(),
        b < keys@.len(),
    ensures
        r == goes_before(keys.deep_view(), desc, a as int, b as int),
{
    if desc {
        crate::text::str_lt(keys[b].as_str(), keys[a].as_str())
    } else {
        crate::text::str_lt(keys[a].as_str(), keys[b].as_str())
    }
}

pub fn list_rows(issues: &[Issue], f: &ListFilter, sort: &str) -> (r: Vec<usize>)
    ensures
        r@.map_values(|x: usize| x as int) == spec_list_rows(issues@, *f, sort@),
        forall|k: int| 0 <= k < r@.len() ==> (#[trigger] r@[k]) < issues@.len(),
{
    let n = issues.len();
    let by_title = crate::text::str_eq(sort, "title");
    let desc = !crate::text::str_eq(sort, "oldest") && !by_title;
    let mut keys: Vec<String> = Vec::new();
    let mut i: usize = 0;
    let ghost ks = sort_keys(issues@, sort@);
    while i < n
        invariant
            n == issues@.len(),
            ks == sort_keys(issues@, sort@),
            by_title == (sort@ == "title"@),
            i <= n,
            keys@.len() == i,
            forall|k: int| 0 <= k < i ==> #[trigger] keys@[k]@ == ks[k],
        decreases n - i,
    {
        let k = if by_title {
            to_lowercase(issues[i].title())
        } else {
            issues[i].uuid.clone()
        };
        keys.push(k);
        i = i + 1;
    }
    // The rows that pass the filter, in issue order.
    let mut rows: Vec<usize> = Vec::new();
    let mut i: usize = 0;
    while i < n
        invariant
            n == issues@.len(),
            i <= n,
            rows@.map_values(|x: usize| x as int) == listed_rows(issues@, *f, i as int),
            forall|k: int| 0 <= k < rows@.len() ==> (#[trigger] rows@[k]) < i,
        decreases n - i,
    {
        let ghost before = rows@;
        if issue_listed(&issues[i], f) {
            rows.push(i);
            assert(rows@.map_values(|x: usize| x as int) =~= before.map_values(|x: usize| x as int).push(
                i as int,
            ));
        }
        i = i + 1;
    }
    // A stable insertion sort of the rows by key.
    let ghost src = rows@.map_values(|x: usize| x as int);
    let mut out: Vec<usize> = Vec::new();
    let m = rows.len();
    let mut k: usize = 0;
    while k < m
        invariant
            m == rows@.len(),
            n == issues@.len(),
            keys@.len() == n,
            forall|q: int| 0 <= q < n ==> #[trigger] keys@[q]@ == ks[q],
            ks == sort_keys(issues@, sort@),
            desc == sort_desc(sort@),
            src == rows@.map_values(|x: usize| x as int),
            forall|q: int| 0 <= q < rows@.len() ==> (#[trigger] rows@[q]) < n,
            forall|q: int| 0 <= q < out@.len() ==> (#[trigger] out@[q]) < n,
            k <= m,
            out@.map_values(|x: usize| x as int) == sort_rows(ks, desc, src.take(k as int)),
        decreases m - k,
    {
        let x = rows[k];
        let ghost cur = out@.map_values(|y: usize| y as int);
        let mut p = out.len();
        proof {
            assert(cur.take(out@.len() as int) =~= cur);
        }
        while p > 0 && key_before(&keys, desc, x, out[p - 1])
            invariant
                p <= out@.len(),
                cur == out@.map_values(|y: usize| y as int),
                keys@.len() == n,
                forall|q: int| 0 <= q < n ==> #[trigger] keys@[q]@ == ks[q],
                forall|q: int| 0 <= q < out@.len() ==> (#[trigger] out@[q]) < n,
                x < n,
                row_pos(ks, desc, cur, x as int) == row_pos(ks, desc, cur.take(p as int), x as int),
            decreases p,
        {
            proof {
                assert(cur.take(p as int).drop_last() =~= cur.take(p - 1));
                assert(cur.take(p as int).last() == out@[p - 1] as int);
            }
            p = p - 1;
        }
        proof {
            assert(keys.deep_view() =~= ks);
            assert(cur.take(out@.len() as int) =~= cur);
            if p > 0 {
                assert(cur.take(p as int).last() == out@[p - 1] as int);
            } else {
                assert(cur.take(0) =~= Seq::<int>::empty());
            }
            let t = src.take(k + 1);
            assert(t.drop_last() =~= src.take(k as int));
            assert(t.last() == x as int);
        }
        out.insert(p, x);
        assert(out@.map_values(|y: usize| y as int) =~= cur.insert(p as int, x as int));
        k = k + 1;
    }
    assert(src.take(m as int) =~= src);
    out
}

/// `issue-config` keys that `gli config` accepts (stored as `gli.default.<key>`).
pub open spec fn config_key_known(key: Seq<char>) -> bool {
    key == "priority"@ || key == "assignee"@ || key == "labels"@ || key == "format"@
}

/// Accepts a known config key; refuses any other with the list of known ones.
pub fn check_config_key(key: &str) -> (r: Result<(), String>)
    ensures
        match r {
            Ok(()) => config_key_known(key@),
            Err(m) => !config_key_known(key@) && m@ == "unknown config key '"@ + key@
                + "' (known: priority, assignee, labels, format)"@,
        },
{
    if crate::text::str_eq(key, "priority") || crate::text::str_eq(key, "assignee")
        || crate::text::str_eq(key, "labels") || crate::text::str_eq(key, "format") {
        Ok(())
    } else {
        let mut m = "unknown config key '".to_owned();
        crate::text::push_str(&mut m, key);
        crate::text::push_str(&mut m, "' (known: priority, assignee, labels, format)");
        Err(m)
    }
}

// ---------------------------------------------------------------------------
// Canonical listings of an issue's sets
// ---------------------------------------------------------------------------

/// The members of an OR-Set in sorted order.
pub open spec fn member_list(m: Map<Seq<char>, Seq<Seq<char>>>) -> Seq<Seq<char>> {
    choose|s: Seq<Seq<char>>| strictly_sorted(s) && forall|x: Seq<char>| s.contains(x) <==> set_present(m, x)
}

pub proof fn lemma_member_list(m: Map<Seq<char>, Seq<Seq<char>>>, s: Seq<Seq<char>>)
    requires
        strictly_sorted(s),
        forall|x: Seq<char>| s.contains(x) <==> set_present(m, x),
    ensures
        member_list(m) == s,
{
    let t = member_list(m);
    assert(strictly_sorted(t) && forall|x: Seq<char>| t.contains(x) <==> set_present(m, x));
    lemma_strictly_sorted_same_set(t, s);
}

/// `s` lists the custom fields with a value, by key.
pub open spec fn is_field_listing(fm: Map<Seq<char>, LwwView<Seq<char>>>, s: Seq<(Seq<char>, Seq<char>)>) -> bool {
    &&& sorted_keys(s)
    &&& forall|k: Seq<char>| has_key(s, k) <==> (fm.contains_key(k) && fm[k].value.len() > 0)
    &&& forall|i: int| 0 <= i < s.len() ==> fm[(#[trigger] s[i]).0].value == s[i].1
}

/// The custom fields with a value, by key.
pub open spec fn field_listing(fm: Map<Seq<char>, LwwView<Seq<char>>>) -> Seq<(Seq<char>, Seq<char>)> {
    choose|s: Seq<(Seq<char>, Seq<char>)>| is_field_listing(fm, s)
}

pub proof fn lemma_field_listing(fm: Map<Seq<char>, LwwView<Seq<char>>>, s: Seq<(Seq<char>, Seq<char>)>)
    requires
        is_field_listing(fm, s),
    ensures
        field_listing(fm) == s,
{
    let t = field_listing(fm);
    assert(is_field_listing(fm, t));
    lemma_keys_strictly_sorted(s);
    lemma_keys_strictly_sorted(t);
    let ks = s.map_values(|p: (Seq<char>, Seq<char>)| p.0);
    let kt = t.map_values(|p: (Seq<char>, Seq<char>)| p.0);
    assert forall|x: Seq<char>| ks.contains(x) <==> kt.contains(x) by {
        if ks.contains(x) {
            let i = choose|i: int| 0 <= i < ks.len() && ks[i] == x;
            assert(s[i].0 == x);
            assert(has_key(s, x));
            assert(has_key(t, x));
            let j = choose|j: int| 0 <= j < t.len() && (#[trigger] t[j]).0 == x;
            assert(kt[j] == x);
        }
        if kt.contains(x) {
            let i = choose|i: int| 0 <= i < kt.len() && kt[i] == x;
            assert(t[i].0 == x);
            assert(has_key(t, x));
            assert(has_key(s, x));
            let j = choose|j: int| 0 <= j < s.len() && (#[trigger] s[j]).0 == x;
            assert(ks[j] == x);
        }
    }
    lemma_strictly_sorted_same_set(ks, kt);
    assert forall|i: int| 0 <= i < s.len() implies s[i] == t[i] by {
        assert(ks[i] == kt[i]);
        assert(s[i].0 == t[i].0);
    }
    assert(s =~= t);
}

/// The related files by path, each with its note when it has one.
pub open spec fn file_listing(v: IssueView) -> Seq<(Seq<char>, Option<Seq<char>>)> {
    member_list(v.files).map_values(|p: Seq<char>| (p, note_of(v.file_notes, p)))
}

pub open spec fn pair_views2(r: Seq<(String, Option<String>)>) -> Seq<(Seq<char>, Option<Seq<char>>)> {
    r.map_values(|p: (String, Option<String>)| (p.0@, p.1.deep_view()))
}

/// The issue's assignees, labels, fields and files, as the listings give
/// them.
fn listings(issue: &Issue) -> (r: (Vec<String>, Vec<String>, Vec<(String, String)>, Vec<(String, Option<String>)>))
    ensures
        r.0.deep_view() == member_list(issue@.assignees),
        r.1.deep_view() == member_list(issue@.labels),
        pair_views(r.2@) == field_listing(issue@.fields),
        pair_views2(r.3@) == file_listing(issue@),
{
    let a = issue.assignees();
    let l = issue.labels();
    let f = issue.fields();
    let fl = issue.files();
    proof {
        lemma_member_list(issue@.assignees, a.deep_view());
        lemma_member_list(issue@.labels, l.deep_view());
        let fv = pair_views(f@);
        assert forall|i: int| 0 <= i < fv.len() implies issue@.fields[(#[trigger] fv[i]).0].value
            == fv[i].1 by {
            assert(fv[i] == (f@[i].0@, f@[i].1@));
        }
        lemma_field_listing(issue@.fields, fv);
        lemma_member_list(issue@.files, issue.files.values_spec());
        assert(pair_views2(fl@) =~= file_listing(issue@));
    }
    (a, l, f, fl)
}

// ---------------------------------------------------------------------------
// `show`
// ---------------------------------------------------------------------------

/// A line without the carriage return before its line feed.
pub open spec fn strip_cr(p: Seq<char>) -> Seq<char> {
    if p.len() > 0 && p.last() == '\r' {
        p.drop_last()
    } else {
        p
    }
}

/// `str::lines`: split at `\n` (a `\r` before it is dropped too), with no
/// empty last line for a final line ending.
pub open spec fn text_lines(t: Seq<char>) -> Seq<Seq<char>> {
    let ps = split_on(t, '\n');
    let n = if ps.last().len() == 0 {
        ps.len() - 1
    } else {
        ps.len() as int
    };
    Seq::new(
        n as nat,
        |i: int|
            if i < ps.len() - 1 {
                strip_cr(ps[i])
            } else {
                ps[i]
            },
    )
}

pub open spec fn opt_line(b: bool, l: Seq<char>) -> Seq<Seq<char>> {
    if b {
        seq![l]
    } else {
        Seq::empty()
    }
}

pub open spec fn opt_suffix(o: Option<Seq<char>>, before: Seq<char>) -> Seq<char> {
    match o {
        Some(x) => before + x + ")"@,
        None => Seq::empty(),
    }
}

/// `State:    closed (reason: ...) (fixed-by: ...)`.
pub open spec fn state_line(st: StateValView) -> Seq<char> {
    "State:    "@ + state_str(st.state) + opt_suffix(st.reason, " (reason: "@) + opt_suffix(
        st.fixed_by,
        " (fixed-by: "@,
    )
}

/// Who wrote a comment: its git author when known, else its actor.
pub open spec fn comment_who(c: CommentView) -> Seq<char> {
    match c.author {
        Some(a) => a,
        None => c.actor,
    }
}

pub open spec fn indented(ls: Seq<Seq<char>>) -> Seq<Seq<char>> {
    ls.map_values(|l: Seq<char>| "    "@ + l)
}

/// Each comment: a numbered header, then its text indented line by line.
pub open spec fn comment_lines(cs: Seq<CommentView>) -> Seq<Seq<char>>
    decreases cs.len(),
{
    if cs.len() == 0 {
        Seq::empty()
    } else {
        comment_lines(cs.drop_last()) + seq![
            "  #"@ + dec(cs.len()) + " by "@ + comment_who(cs.last()) + ":"@,
        ] + indented(text_lines(cs.last().text))
    }
}

pub open spec fn field_lines(fs: Seq<(Seq<char>, Seq<char>)>) -> Seq<Seq<char>> {
    fs.map_values(|f: (Seq<char>, Seq<char>)| "Field:    "@ + f.0 + " = "@ + f.1)
}

pub open spec fn file_line(f: (Seq<char>, Option<Seq<char>>)) -> Seq<char> {
    match f.1 {
        Some(n) => "  "@ + f.0 + "  ("@ + n + ")"@,
        None => "  "@ + f.0,
    }
}

/// What `gli show` prints for an issue, line by line.
pub open spec fn spec_show_lines(d: DisplayIdView, v: IssueView) -> Seq<Seq<char>> {
    let assignees = member_list(v.assignees);
    let labels = member_list(v.labels);
    let files = file_listing(v);
    seq![d.nonce + "  ("@ + v.uuid + ")"@, "Title:    "@ + v.title.value, state_line(v.state.value)]
        + opt_line(assignees.len() > 0, "Assignees: "@ + join_comma(assignees)) + match v.priority.value {
        Some(p) => seq!["Priority: "@ + p],
        None => Seq::empty(),
    } + opt_line(labels.len() > 0, "Labels:   "@ + join_comma(labels)) + field_lines(
        field_listing(v.fields),
    ) + seq!["Creator:  "@ + v.creator] + opt_line(v.archived.value, "Archived: yes"@) + (
    if files.len() > 0 {
        seq!["Files:"@] + files.map_values(|f: (Seq<char>, Option<Seq<char>>)| file_line(f))
    } else {
        Seq::empty()
    }) + opt_line(v.description.value.len() > 0, "\n"@ + v.description.value) + (
    if v.comments.len() == 0 {
        seq!["\nNo comments."@]
    } else {
        seq!["\nComments ("@ + dec(v.comments.len()) + "):"@] + comment_lines(v.comments)
    })
}

fn push_line(v: &mut Vec<String>, s: String)
    ensures
        final(v).deep_view() == old(v).deep_view().push(s@),
{
    let ghost before = v.deep_view();
    v.push(s);
    assert(v.deep_view() =~= before.push(s@));
}

fn cat(a: &str, b: &str) -> (r: String)
    ensures
        r@ == a@ + b@,
{
    let mut r = a.to_owned();
    crate::text::push_str(&mut r, b);
    r
}

/// The lines of a text (`str::lines`).
pub fn lines_of(t: &str) -> (r: Vec<String>)
    ensures
        r.deep_view() == text_lines(t@),
{
    let v = crate::text::to_chars(t);
    let ps = crate::text::split_chars(v.as_slice(), '\n');
    let ghost pv = split_on(t@, '\n');
    proof {
        crate::text::lemma_split_nonempty(t@, '\n');
    }
    let np = ps.len();
    let n = if ps[np - 1].len() == 0 {
        np - 1
    } else {
        np
    };
    let mut r: Vec<String> = Vec::new();
    let mut i: usize = 0;
    while i < n
        invariant
            np == pv.len(),
            np == ps@.len(),
            forall|k: int| 0 <= k < np ==> #[trigger] ps@[k]@ == pv[k],
            pv == split_on(t@, '\n'),
            n <= np,
            n as int == (if pv.last().len() == 0 {
                pv.len() - 1
            } else {
                pv.len() as int
            }),
            i <= n,
            r.deep_view() == text_lines(t@).take(i as int),
        decreases n - i,
    {
        let p = &ps[i];
        let line = if i + 1 < np && p.len() > 0 && p[p.len() - 1] == '\r' {
            let x = crate::text::range_to_string(p.as_slice(), 0, p.len() - 1);
            assert(p@.subrange(0, p@.len() - 1) =~= p@.drop_last());
            x
        } else {
            crate::text::from_chars(p.as_slice())
        };
        proof {
            assert(text_lines(t@).len() == n);
            assert(p@ == pv[i as int]);
            assert(text_lines(t@)[i as int] == (if i < pv.len() - 1 {
                strip_cr(pv[i as int])
            } else {
                pv[i as int]
            }));
            assert(line@ == text_lines(t@)[i as int]);
        }
        let ghost before = r.deep_view();
        let ghost lv = line@;
        r.push(line);
        assert(r.deep_view() =~= before.push(lv));
        assert(text_lines(t@).take(i + 1) =~= text_lines(t@).take(i as int).push(lv));
        assert(r.deep_view() =~= text_lines(t@).take(i + 1));
        i = i + 1;
    }
    assert(text_lines(t@).take(n as int) =~= text_lines(t@));
    r
}

fn state_line_exec(st: &StateVal) -> (r: String)
    ensures
        r@ == state_line(st.deep_view()),
{
    let mut r = cat("State:    ", st.state.as_str());
    match &st.reason {
        Some(x) => {
            crate::text::push_str(&mut r, " (reason: ");
            crate::text::push_str(&mut r, x.as_str());
            crate::text::push_str(&mut r, ")");
        },
        None => {},
    }
    let ghost mid = r@;
    match &st.fixed_by {
        Some(x) => {
            crate::text::push_str(&mut r, " (fixed-by: ");
            crate::text::push_str(&mut r, x.as_str());
            crate::text::push_str(&mut r, ")");
        },
        None => {},
    }
    proof {
        reveal_strlit("");
        assert(opt_suffix(None, " (reason: "@) =~= Seq::<char>::empty());
        assert(opt_suffix(None, " (fixed-by: "@) =~= Seq::<char>::empty());
        assert(r@ =~= state_line(st.deep_view()));
    }
    r
}

fn comments_block(cs: &Vec<Comment>) -> (r: Vec<String>)
    ensures
        r.deep_view() == comment_lines(cs.deep_view()),
{
    let mut r: Vec<String> = Vec::new();
    let n = cs.len();
    let mut i: usize = 0;
    assert(cs.deep_view().take(0) =~= Seq::<CommentView>::empty());
    assert(r.deep_view() =~= Seq::<Seq<char>>::empty());
    while i < n
        invariant
            n == cs@.len(),
            i <= n,
            r.deep_view() == comment_lines(cs.deep_view().take(i as int)),
        decreases n - i,
    {
        let c = &cs[i];
        let who: &str = match &c.author {
            Some(a) => a.as_str(),
            None => c.actor.as_str(),
        };
        let mut h = "  #".to_owned();
        let num = crate::text::usize_to_string(i + 1);
        crate::text::push_str(&mut h, num.as_str());
        crate::text::push_str(&mut h, " by ");
        crate::text::push_str(&mut h, who);
        crate::text::push_str(&mut h, ":");
        let ghost before = r.deep_view();
        push_line(&mut r, h);
        let tl = lines_of(c.text.as_str());
        let m = tl.len();
        let mut k: usize = 0;
        while k < m
            invariant
                m == tl@.len(),
                k <= m,
                r.deep_view() == before.push(h@) + indented(tl.deep_view().take(k as int)),
            decreases m - k,
        {
            let line = cat("    ", tl[k].as_str());
            let ghost b2 = r.deep_view();
            push_line(&mut r, line);
            assert(indented(tl.deep_view().take(k + 1)) =~= indented(tl.deep_view().take(k as int)).push(
                "    "@ + tl@[k as int]@,
            ));
            assert(r.deep_view() =~= before.push(h@) + indented(tl.deep_view().take(k + 1)));
            k = k + 1;
        }
        proof {
            assert(tl.deep_view().take(m as int) =~= tl.deep_view());
            let t = cs.deep_view().take(i + 1);
            assert(t.drop_last() =~= cs.deep_view().take(i as int));
            assert(t.last() == cs@[i as int].deep_view());
            assert(comment_who(t.last()) == who@);
            assert(h@ == "  #"@ + dec(t.len()) + " by "@ + comment_who(t.last()) + ":"@);
            assert(r.deep_view() =~= comment_lines(t.drop_last()) + seq![h@] + indented(text_lines(
                t.last().text,
            )));
        }
        i = i + 1;
    }
    assert(cs.deep_view().take(n as int) =~= cs.deep_view());
    r
}

/// What `gli show` prints for an issue, line by line.
#[verifier::spinoff_prover]
#[verifier::rlimit(60)]
pub fn show_lines(cache: &Cache, issue: &Issue) -> (r: Vec<String>)
    ensures
        r.deep_view() == spec_show_lines(display_or_short(cache.display@, issue.uuid@), issue@),
{
    let d = cache.display_of(issue.uuid.as_str());
    let (assignees, labels, fields, files) = listings(issue);
    let ghost v = issue@;
    let mut out: Vec<String> = Vec::new();
    let mut head = d.nonce.clone();
    crate::text::push_str(&mut head, "  (");
    crate::text::push_str(&mut head, issue.uuid.as_str());
    crate::text::push_str(&mut head, ")");
    push_line(&mut out, head);
    push_line(&mut out, cat("Title:    ", issue.title()));
    push_line(&mut out, state_line_exec(issue.state()));
    let ghost p1 = out.deep_view();
    let ghost d0 = display_or_short(cache.display@, issue.uuid@);
    assert(p1 =~= seq![d0.nonce + "  ("@ + v.uuid + ")"@, "Title:    "@ + v.title.value, state_line(v.state.value)]);
    if assignees.len() > 0 {
        let j = join_comma_exec(&assignees);
        push_line(&mut out, cat("Assignees: ", j.as_str()));
    }
    let ghost p2 = out.deep_view();
    assert(p2 =~= p1 + opt_line(member_list(v.assignees).len() > 0, "Assignees: "@ + join_comma(member_list(v.assignees))));
    match issue.priority() {
        Some(p) => push_line(&mut out, cat("Priority: ", p)),
        None => {},
    }
    let ghost p3 = out.deep_view();
    assert(p3 =~= p2 + match v.priority.value {
        Some(p) => seq!["Priority: "@ + p],
        None => Seq::<Seq<char>>::empty(),
    });
    if labels.len() > 0 {
        let j = join_comma_exec(&labels);
        push_line(&mut out, cat("Labels:   ", j.as_str()));
    }
    let ghost p4 = out.deep_view();
    assert(p4 =~= p3 + opt_line(member_list(v.labels).len() > 0, "Labels:   "@ + join_comma(member_list(v.labels))));
    let nf = fields.len();
    let mut i: usize = 0;
    while i < nf
        invariant
            nf == fields@.len(),
            i <= nf,
            out.deep_view() == p4 + field_lines(pair_views(fields@).take(i as int)),
        decreases nf - i,
    {
        let mut l = cat("Field:    ", fields[i].0.as_str());
        crate::text::push_str(&mut l, " = ");
        crate::text::push_str(&mut l, fields[i].1.as_str());
        push_line(&mut out, l);
        assert(field_lines(pair_views(fields@).take(i + 1)) =~= field_lines(
            pair_views(fields@).take(i as int),
        ).push(l@));
        i = i + 1;
    }
    assert(pair_views(fields@).take(nf as int) =~= pair_views(fields@));
    let ghost p5 = out.deep_view();
    push_line(&mut out, cat("Creator:  ", issue.creator.as_str()));
    if issue.archived() {
        push_line(&mut out, "Archived: yes".to_owned());
    }
    let ghost p6 = out.deep_view();
    assert(p5 == p4 + field_lines(field_listing(v.fields)));
    assert(p6 =~= p5 + seq!["Creator:  "@ + v.creator] + opt_line(v.archived.value, "Archived: yes"@));
    if files.len() > 0 {
        push_line(&mut out, "Files:".to_owned());
        let ghost p7 = out.deep_view();
        let nfi = files.len();
        let mut i: usize = 0;
        while i < nfi
            invariant
                nfi == files@.len(),
                i <= nfi,
                out.deep_view() == p7 + pair_views2(files@).take(i as int).map_values(
                    |f: (Seq<char>, Option<Seq<char>>)| file_line(f),
                ),
            decreases nfi - i,
        {
            let mut l = cat("  ", files[i].0.as_str());
            match &files[i].1 {
                Some(n) => {
                    crate::text::push_str(&mut l, "  (");
                    crate::text::push_str(&mut l, n.as_str());
                    crate::text::push_str(&mut l, ")");
                },
                None => {},
            }
            assert(l@ == file_line(pair_views2(files@)[i as int]));
            push_line(&mut out, l);
            assert(pair_views2(files@).take(i + 1).map_values(
                |f: (Seq<char>, Option<Seq<char>>)| file_line(f),
            ) =~= pair_views2(files@).take(i as int).map_values(
                |f: (Seq<char>, Option<Seq<char>>)| file_line(f),
            ).push(l@));
            i = i + 1;
        }
        assert(pair_views2(files@).take(nfi as int) =~= pair_views2(files@));
    }
    let ghost p8 = out.deep_view();
    assert(p8 =~= p6 + (if file_listing(v).len() > 0 {
        seq!["Files:"@] + file_listing(v).map_values(|f: (Seq<char>, Option<Seq<char>>)| file_line(f))
    } else {
        Seq::<Seq<char>>::empty()
    }));
    if !issue.description().is_empty() {
        push_line(&mut out, cat("\n", issue.description()));
    }
    let ghost p9 = out.deep_view();
    assert(p9 =~= p8 + opt_line(v.description.value.len() > 0, "\n"@ + v.description.value));
    if issue.comments.len() == 0 {
        push_line(&mut out, "\nNo comments.".to_owned());
    } else {
        let mut h = "\nComments (".to_owned();
        let num = crate::text::usize_to_string(issue.comments.len());
        crate::text::push_str(&mut h, num.as_str());
        crate::text::push_str(&mut h, "):");
        push_line(&mut out, h);
        let cl = comments_block(&issue.comments);
        let ghost before = out.deep_view();
        let mut cl2 = cl;
        out.append(&mut cl2);
        assert(out.deep_view() =~= before + cl.deep_view());
    }
    assert(out.deep_view() =~= p9 + (if v.comments.len() == 0 {
        seq!["\nNo comments."@]
    } else {
        seq!["\nComments ("@ + dec(v.comments.len()) + "):"@] + comment_lines(v.comments)
    }));
    proof {
        let want = spec_show_lines(d0, v);
        assert(out.deep_view() =~= want);
    }
    out
}

// ---------------------------------------------------------------------------
// `ls`
// ---------------------------------------------------------------------------

pub open spec fn spaces(n: nat) -> Seq<char> {
    Seq::new(n, |i: int| ' ')
}

/// `{:<w}`: left-aligned in a field `w` characters wide.
pub open spec fn pad_right(s: Seq<char>, w: nat) -> Seq<char> {
    if s.len() < w {
        s + spaces((w - s.len()) as nat)
    } else {
        s
    }
}

/// `{:>w}`: right-aligned in a field `w` characters wide.
pub open spec fn pad_left(s: Seq<char>, w: nat) -> Seq<char> {
    if s.len() < w {
        spaces((w - s.len()) as nat) + s
    } else {
        s
    }
}

fn spaces_exec(n: usize) -> (r: String)
    ensures
        r@ == spaces(n as nat),
{
    let mut r = String::new();
    let mut i: usize = 0;
    while i < n
        invariant
            i <= n,
            r@ == spaces(i as nat),
        decreases n - i,
    {
        crate::text::push_char(&mut r, ' ');
        assert(r@ =~= spaces((i + 1) as nat));
        i = i + 1;
    }
    r
}

fn pad_right_exec(s: &str, w: usize) -> (r: String)
    ensures
        r@ == pad_right(s@, w as nat),
{
    let n = crate::text::to_chars(s).len();
    if n < w {
        cat(s, spaces_exec(w - n).as_str())
    } else {
        s.to_owned()
    }
}

fn pad_left_exec(s: &str, w: usize) -> (r: String)
    ensures
        r@ == pad_left(s@, w as nat),
{
    let n = crate::text::to_chars(s).len();
    if n < w {
        cat(spaces_exec(w - n).as_str(), s)
    } else {
        s.to_owned()
    }
}

pub open spec fn archived_mark(v: IssueView) -> Seq<char> {
    if v.archived.value {
        " (archived)"@
    } else {
        Seq::empty()
    }
}

/// One line of the short listing: nonce, short id, state, title, archive
/// mark, labels.
pub open spec fn short_row(d: DisplayIdView, v: IssueView) -> Seq<char> {
    let labels = member_list(v.labels);
    pad_right(d.nonce, 12) + " "@ + pad_right(d.short, 8) + " "@ + pad_right(state_str(v.state.value.state), 7)
        + " "@ + v.title.value + archived_mark(v) + if labels.len() > 0 {
        "  ["@ + join_comma(labels) + "]"@
    } else {
        Seq::empty()
    }
}

pub open spec fn field_pairs_text(fs: Seq<(Seq<char>, Seq<char>)>) -> Seq<Seq<char>> {
    fs.map_values(|f: (Seq<char>, Seq<char>)| f.0 + "="@ + f.1)
}

pub open spec fn file_paths(fs: Seq<(Seq<char>, Option<Seq<char>>)>) -> Seq<Seq<char>> {
    fs.map_values(|f: (Seq<char>, Option<Seq<char>>)| f.0)
}

/// The lines of the full listing for one issue.
pub open spec fn full_rows(d: DisplayIdView, v: IssueView) -> Seq<Seq<char>> {
    let assignees = member_list(v.assignees);
    let labels = member_list(v.labels);
    let fields = field_listing(v.fields);
    let files = file_listing(v);
    seq![
        d.nonce + " ("@ + d.short + ")  ["@ + state_str(v.state.value.state) + "]"@ + archived_mark(
            v,
        ) + "  "@ + v.title.value,
    ] + opt_line(assignees.len() > 0, "    assignees: "@ + join_comma(assignees)) + match v.priority.value {
        Some(p) => seq!["    priority: "@ + p],
        None => Seq::empty(),
    } + opt_line(labels.len() > 0, "    labels: "@ + join_comma(labels)) + opt_line(
        fields.len() > 0,
        "    fields: "@ + join_comma(field_pairs_text(fields)),
    ) + opt_line(files.len() > 0, "    files: "@ + join_comma(file_paths(files))) + seq![
        "    comments: "@ + dec(v.comments.len()),
    ]
}

pub open spec fn rows_lines(es: Seq<DisplayIdView>, issues: Seq<Issue>, rows: Seq<int>, full: bool) -> Seq<Seq<char>>
    decreases rows.len(),
{
    if rows.len() == 0 {
        Seq::empty()
    } else {
        let i = rows.last();
        let d = display_or_short(es, issues[i].uuid@);
        rows_lines(es, issues, rows.drop_last(), full) + if full {
            full_rows(d, issues[i]@)
        } else {
            seq![short_row(d, issues[i]@)]
        }
    }
}

/// What `gli ls` prints (short or full format) for the chosen rows.
pub open spec fn spec_ls_lines(es: Seq<DisplayIdView>, issues: Seq<Issue>, rows: Seq<int>, full: bool) -> Seq<Seq<char>> {
    if rows.len() == 0 {
        seq!["No matching issues."@]
    } else {
        rows_lines(es, issues, rows, full)
    }
}

fn short_row_exec(cache: &Cache, issue: &Issue) -> (r: String)
    ensures
        r@ == short_row(display_or_short(cache.display@, issue.uuid@), issue@),
{
    let d = cache.display_of(issue.uuid.as_str());
    let (_a, labels, _f, _fl) = listings(issue);
    let mut r = pad_right_exec(d.nonce.as_str(), 12);
    crate::text::push_str(&mut r, " ");
    let s8 = pad_right_exec(d.short.as_str(), 8);
    crate::text::push_str(&mut r, s8.as_str());
    crate::text::push_str(&mut r, " ");
    let m7 = pad_right_exec(issue.state().state.as_str(), 7);
    crate::text::push_str(&mut r, m7.as_str());
    crate::text::push_str(&mut r, " ");
    crate::text::push_str(&mut r, issue.title());
    if issue.archived() {
        crate::text::push_str(&mut r, " (archived)");
    }
    let ghost mid = r@;
    if labels.len() > 0 {
        crate::text::push_str(&mut r, "  [");
        let j = join_comma_exec(&labels);
        crate::text::push_str(&mut r, j.as_str());
        crate::text::push_str(&mut r, "]");
    }
    proof {
        let d0 = display_or_short(cache.display@, issue.uuid@);
        assert(mid =~= pad_right(d0.nonce, 12) + " "@ + pad_right(d0.short, 8) + " "@ + pad_right(
            state_str(issue@.state.value.state),
            7,
        ) + " "@ + issue@.title.value + archived_mark(issue@));
        assert(r@ =~= short_row(d0, issue@));
    }
    r
}

fn joined_pairs(fields: &Vec<(String, String)>) -> (r: String)
    ensures
        r@ == join_comma(field_pairs_text(pair_views(fields@))),
{
    let mut v: Vec<String> = Vec::new();
    let n = fields.len();
    let mut i: usize = 0;
    while i < n
        invariant
            n == fields@.len(),
            i <= n,
            v.deep_view() == field_pairs_text(pair_views(fields@)).take(i as int),
        decreases n - i,
    {
        let mut x = fields[i].0.clone();
        crate::text::push_str(&mut x, "=");
        crate::text::push_str(&mut x, fields[i].1.as_str());
        push_line(&mut v, x);
        assert(field_pairs_text(pair_views(fields@)).take(i + 1) =~= field_pairs_text(
            pair_views(fields@),
        ).take(i as int).push(x@));
        i = i + 1;
    }
    assert(field_pairs_text(pair_views(fields@)).take(n as int) =~= field_pairs_text(
        pair_views(fields@),
    ));
    join_comma_exec(&v)
}

fn joined_paths(files: &Vec<(String, Option<String>)>) -> (r: String)
    ensures
        r@ == join_comma(file_paths(pair_views2(files@))),
{
    let mut v: Vec<String> = Vec::new();
    let n = files.len();
    let mut i: usize = 0;
    while i < n
        invariant
            n == files@.len(),
            i <= n,
            v.deep_view() == file_paths(pair_views2(files@)).take(i as int),
        decreases n - i,
    {
        push_line(&mut v, files[i].0.clone());
        assert(file_paths(pair_views2(files@)).take(i + 1) =~= file_paths(pair_views2(files@)).take(
            i as int,
        ).push(files@[i as int].0@));
        i = i + 1;
    }
    assert(file_paths(pair_views2(files@)).take(n as int) =~= file_paths(pair_views2(files@)));
    join_comma_exec(&v)
}

#[verifier::spinoff_prover]
#[verifier::rlimit(60)]
fn full_rows_exec(cache: &Cache, issue: &Issue) -> (r: Vec<String>)
    ensures
        r.deep_view() == full_rows(display_or_short(cache.display@, issue.uuid@), issue@),
{
    let d = cache.display_of(issue.uuid.as_str());
    let (assignees, labels, fields, files) = listings(issue);
    let ghost v = issue@;
    let ghost d0 = display_or_short(cache.display@, issue.uuid@);
    let mut out: Vec<String> = Vec::new();
    let mut h = d.nonce.clone();
    crate::text::push_str(&mut h, " (");
    crate::text::push_str(&mut h, d.short.as_str());
    crate::text::push_str(&mut h, ")  [");
    crate::text::push_str(&mut h, issue.state().state.as_str());
    crate::text::push_str(&mut h, "]");
    if issue.archived() {
        crate::text::push_str(&mut h, " (archived)");
    }
    crate::text::push_str(&mut h, "  ");
    crate::text::push_str(&mut h, issue.title());
    assert(h@ =~= d0.nonce + " ("@ + d0.short + ")  ["@ + state_str(v.state.value.state) + "]"@
        + archived_mark(v) + "  "@ + v.title.value);
    push_line(&mut out, h);
    let ghost p1 = out.deep_view();
    if assignees.len() > 0 {
        let j = join_comma_exec(&assignees);
        push_line(&mut out, cat("    assignees: ", j.as_str()));
    }
    let ghost p2 = out.deep_view();
    assert(p2 =~= p1 + opt_line(member_list(v.assignees).len() > 0, "    assignees: "@ + join_comma(member_list(v.assignees))));
    match issue.priority() {
        Some(p) => push_line(&mut out, cat("    priority: ", p)),
        None => {},
    }
    let ghost p3 = out.deep_view();
    assert(p3 =~= p2 + match v.priority.value {
        Some(p) => seq!["    priority: "@ + p],
        None => Seq::<Seq<char>>::empty(),
    });
    if labels.len() > 0 {
        let j = join_comma_exec(&labels);
        push_line(&mut out, cat("    labels: ", j.as_str()));
    }
    let ghost p4 = out.deep_view();
    assert(p4 =~= p3 + opt_line(member_list(v.labels).len() > 0, "    labels: "@ + join_comma(member_list(v.labels))));
    if fields.len() > 0 {
        let j = joined_pairs(&fields);
        push_line(&mut out, cat("    fields: ", j.as_str()));
    }
    let ghost p5 = out.deep_view();
    assert(p5 =~= p4 + opt_line(field_listing(v.fields).len() > 0, "    fields: "@ + join_comma(field_pairs_text(field_listing(v.fields)))));
    if files.len() > 0 {
        let j = joined_paths(&files);
        push_line(&mut out, cat("    files: ", j.as_str()));
    }
    let ghost p6 = out.deep_view();
    assert(p6 =~= p5 + opt_line(file_listing(v).len() > 0, "    files: "@ + join_comma(file_paths(file_listing(v)))));
    let num = crate::text::usize_to_string(issue.comments.len());
    push_line(&mut out, cat("    comments: ", num.as_str()));
    assert(out.deep_view() =~= full_rows(d0, v));
    out
}

/// What `gli ls` prints (short or full format) for the chosen rows of the
/// cached issues.
#[verifier::spinoff_prover]
#[verifier::rlimit(40)]
pub fn ls_lines(cache: &Cache, rows: &Vec<usize>, full: bool) -> (r: Vec<String>)
    requires
        forall|k: int| 0 <= k < rows@.len() ==> (#[trigger] rows@[k]) < cache.issues@.len(),
    ensures
        r.deep_view() == spec_ls_lines(
            cache.display@,
            cache.issues@,
            rows@.map_values(|x: usize| x as int),
            full,
        ),
{
    let ghost rv = rows@.map_values(|x: usize| x as int);
    if rows.len() == 0 {
        let mut out: Vec<String> = Vec::new();
        push_line(&mut out, "No matching issues.".to_owned());
        assert(out.deep_view() =~= seq!["No matching issues."@]);
        return out;
    }
    let mut out: Vec<String> = Vec::new();
    let n = rows.len();
    let mut k: usize = 0;
    assert(rv.take(0) =~= Seq::<int>::empty());
    assert(out.deep_view() =~= Seq::<Seq<char>>::empty());
    while k < n
        invariant
            n == rows@.len(),
            rv == rows@.map_values(|x: usize| x as int),
            forall|q: int| 0 <= q < rows@.len() ==> (#[trigger] rows@[q]) < cache.issues@.len(),
            k <= n,
            out.deep_view() == rows_lines(cache.display@, cache.issues@, rv.take(k as int), full),
        decreases n - k,
    {
        let issue = &cache.issues[rows[k]];
        let ghost before = out.deep_view();
        if full {
            let mut part = full_rows_exec(cache, issue);
            let ghost pv = part.deep_view();
            out.append(&mut part);
            assert(out.deep_view() =~= before + pv);
        } else {
            push_line(&mut out, short_row_exec(cache, issue));
        }
        proof {
            let t = rv.take(k + 1);
            assert(t.drop_last() =~= rv.take(k as int));
            assert(t.last() == rows@[k as int] as int);
        }
        k = k + 1;
    }
    assert(rv.take(n as int) =~= rv);
    out
}

// ---------------------------------------------------------------------------
// `show --ops`
// ---------------------------------------------------------------------------

/// One line of the raw operation log.
pub open spec fn op_log_line(op: OpView) -> Seq<char> {
    let commit = match op.commit {
        Some(c) => c,
        None => "-"@,
    };
    "  [lamport "@ + pad_left(dec(op.lamport as nat), 4) + "] "@ + pad_right(slug_of(op.kind), 15)
        + " op-id "@ + op.id + "  ("@ + sha7(commit) + ")"@
}

/// What `gli show --ops` prints: a header, then one line per op in chain
/// order.
pub open spec fn spec_op_log_lines(nonce: Seq<char>, uuid: Seq<char>, ops: Seq<OpView>) -> Seq<Seq<char>> {
    seq![nonce + "  ("@ + uuid + ")  operation log ("@ + dec(ops.len()) + " ops):"@] + ops.map_values(
        |o: OpView| op_log_line(o),
    )
}

pub fn op_log_lines(nonce: &str, uuid: &str, ops: &Vec<Op>) -> (r: Vec<String>)
    ensures
        r.deep_view() == spec_op_log_lines(nonce@, uuid@, ops_view(ops@)),
{
    let mut out: Vec<String> = Vec::new();
    let mut h = cat(nonce, "  (");
    crate::text::push_str(&mut h, uuid);
    crate::text::push_str(&mut h, ")  operation log (");
    let num = crate::text::usize_to_string(ops.len());
    crate::text::push_str(&mut h, num.as_str());
    crate::text::push_str(&mut h, " ops):");
    push_line(&mut out, h);
    let ghost first = out.deep_view();
    let ghost ov = ops_view(ops@);
    let n = ops.len();
    let mut i: usize = 0;
    while i < n
        invariant
            n == ops@.len(),
            ov == ops_view(ops@),
            i <= n,
            out.deep_view() == first + ov.take(i as int).map_values(|o: OpView| op_log_line(o)),
        decreases n - i,
    {
        let op = &ops[i];
        let commit: &str = match &op.commit {
            Some(c) => c.as_str(),
            None => "-",
        };
        let mut l = "  [lamport ".to_owned();
        let lam = pad_left_exec(crate::text::u64_to_string(op.lamport).as_str(), 4);
        crate::text::push_str(&mut l, lam.as_str());
        crate::text::push_str(&mut l, "] ");
        let slug = pad_right_exec(op.kind.slug(), 15);
        crate::text::push_str(&mut l, slug.as_str());
        crate::text::push_str(&mut l, " op-id ");
        crate::text::push_str(&mut l, op.id.as_str());
        crate::text::push_str(&mut l, "  (");
        let c7 = crate::fsck::sha7_of(commit);
        crate::text::push_str(&mut l, c7.as_str());
        crate::text::push_str(&mut l, ")");
        assert(l@ == op_log_line(ov[i as int]));
        push_line(&mut out, l);
        assert(ov.take(i + 1).map_values(|o: OpView| op_log_line(o)) =~= ov.take(i as int).map_values(
            |o: OpView| op_log_line(o),
        ).push(l@));
        i = i + 1;
    }
    assert(ov.take(n as int) =~= ov);
    out
}

// ---------------------------------------------------------------------------
// `edit`
// ---------------------------------------------------------------------------

/// The changes `gli edit` was asked for.
pub struct EditChanges {
    pub title: Option<String>,
    pub desc: Option<String>,
    pub add_label: Vec<String>,
    pub remove_label: Vec<String>,
    /// The sole assignee; an empty value clears every assignee.
    pub assignee: Option<String>,
    pub add_assignee: Vec<String>,
    pub remove_assignee: Vec<String>,
    /// The priority; an empty value clears it.
    pub priority: Option<String>,
}

/// One operation of an edit and the line that reports it once applied.
pub struct EditStep {
    pub kind: OpKind,
    pub report: String,
}

pub open spec fn step_views(s: Seq<EditStep>) -> Seq<(KindView, Seq<char>)> {
    s.map_values(|e: EditStep| (e.kind@, e.report@))
}

pub open spec fn nonempty_opt(v: Seq<char>) -> Option<Seq<char>> {
    if v.len() > 0 {
        Some(v)
    } else {
        None
    }
}

pub open spec fn label_steps(ls: Seq<Seq<char>>, add: bool) -> Seq<(KindView, Seq<char>)> {
    ls.map_values(
        |l: Seq<char>|
            if add {
                (KindView::AddLabel { label: l }, "  add label: "@ + l)
            } else {
                (KindView::RemoveLabel { label: l }, "  remove label: "@ + l)
            },
    )
}

pub open spec fn assignee_steps(ls: Seq<Seq<char>>, add: bool) -> Seq<(KindView, Seq<char>)> {
    ls.map_values(
        |l: Seq<char>|
            if add {
                (KindView::AddAssignee { assignee: l }, "  add assignee: "@ + l)
            } else {
                (KindView::RemoveAssignee { assignee: l }, "  remove assignee: "@ + l)
            },
    )
}

/// The operations of an edit, in the fixed order they are applied, each with
/// its report line: title, description, added labels, removed labels, sole
/// assignee, added assignees, removed assignees, priority.
pub open spec fn spec_edit_steps(c: EditChanges) -> Seq<(KindView, Seq<char>)> {
    (match c.title {
        Some(t) => seq![(KindView::SetTitle { title: t@ }, "  set title: "@ + first_line_of(t@))],
        None => Seq::empty(),
    }) + (match c.desc {
        Some(d) => seq![(KindView::SetDescription { description: d@ }, "  set description"@)],
        None => Seq::empty(),
    }) + label_steps(c.add_label.deep_view(), true) + label_steps(c.remove_label.deep_view(), false)
        + (match c.assignee {
        Some(a) => seq![
            (
                KindView::SetAssignee { assignee: nonempty_opt(a@) },
                if a@.len() == 0 {
                    "  clear assignees"@
                } else {
                    "  set sole assignee: "@ + a@
                },
            ),
        ],
        None => Seq::empty(),
    }) + assignee_steps(c.add_assignee.deep_view(), true) + assignee_steps(
        c.remove_assignee.deep_view(),
        false,
    ) + (match c.priority {
        Some(p) => seq![
            (
                KindView::SetPriority { priority: nonempty_opt(p@) },
                if p@.len() == 0 {
                    "  clear priority"@
                } else {
                    "  set priority: "@ + p@
                },
            ),
        ],
        None => Seq::empty(),
    })
}

fn push_step(v: &mut Vec<EditStep>, kind: OpKind, report: String)
    ensures
        step_views(final(v)@) == step_views(old(v)@).push((kind@, report@)),
{
    let ghost before = step_views(v@);
    let ghost k = kind@;
    let ghost r = report@;
    v.push(EditStep { kind, report });
    assert(step_views(v@) =~= before.push((k, r)));
}

fn list_steps(v: &mut Vec<EditStep>, items: &Vec<String>, labels: bool, add: bool)
    ensures
        step_views(final(v)@) == step_views(old(v)@) + if labels {
            label_steps(items.deep_view(), add)
        } else {
            assignee_steps(items.deep_view(), add)
        },
{
    let ghost start = step_views(v@);
    let ghost want = if labels {
        label_steps(items.deep_view(), add)
    } else {
        assignee_steps(items.deep_view(), add)
    };
    let n = items.len();
    let mut i: usize = 0;
    while i < n
        invariant
            n == items@.len(),
            i <= n,
            want == (if labels {
                label_steps(items.deep_view(), add)
            } else {
                assignee_steps(items.deep_view(), add)
            }),
            step_views(v@) == start + want.take(i as int),
        decreases n - i,
    {
        let x = items[i].clone();
        let (kind, head) = if labels {
            if add {
                (OpKind::AddLabel { label: x.clone() }, "  add label: ")
            } else {
                (OpKind::RemoveLabel { label: x.clone() }, "  remove label: ")
            }
        } else {
            if add {
                (OpKind::AddAssignee { assignee: x.clone() }, "  add assignee: ")
            } else {
                (OpKind::RemoveAssignee { assignee: x.clone() }, "  remove assignee: ")
            }
        };
        let report = cat(head, x.as_str());
        assert((kind@, report@) == want[i as int]);
        push_step(v, kind, report);
        assert(want.take(i + 1) =~= want.take(i as int).push(want[i as int]));
        i = i + 1;
    }
    assert(want.take(n as int) =~= want);
}

fn opt_nonempty(s: &String) -> (r: Option<String>)
    ensures
        r.deep_view() == nonempty_opt(s@),
{
    if s.as_str().is_empty() {
        None
    } else {
        Some(s.clone())
    }
}

/// The operations an edit becomes, in order, with their report lines.
pub fn edit_steps(c: &EditChanges) -> (r: Vec<EditStep>)
    ensures
        step_views(r@) == spec_edit_steps(*c),
{
    let mut v: Vec<EditStep> = Vec::new();
    assert(step_views(v@) =~= Seq::<(KindView, Seq<char>)>::empty());
    match &c.title {
        Some(t) => {
            let fl = first_line(t.as_str());
            push_step(&mut v, OpKind::SetTitle { title: t.clone() }, cat("  set title: ", fl.as_str()));
        },
        None => {},
    }
    let ghost a1 = step_views(v@);
    match &c.desc {
        Some(d) => push_step(
            &mut v,
            OpKind::SetDescription { description: d.clone() },
            "  set description".to_owned(),
        ),
        None => {},
    }
    let ghost a2 = step_views(v@);
    list_steps(&mut v, &c.add_label, true, true);
    list_steps(&mut v, &c.remove_label, true, false);
    let ghost a3 = step_views(v@);
    match &c.assignee {
        Some(a) => {
            let report = if a.as_str().is_empty() {
                "  clear assignees".to_owned()
            } else {
                cat("  set sole assignee: ", a.as_str())
            };
            push_step(&mut v, OpKind::SetAssignee { assignee: opt_nonempty(a) }, report);
        },
        None => {},
    }
    let ghost a4 = step_views(v@);
    list_steps(&mut v, &c.add_assignee, false, true);
    list_steps(&mut v, &c.remove_assignee, false, false);
    let ghost a5 = step_views(v@);
    match &c.priority {
        Some(p) => {
            let report = if p.as_str().is_empty() {
                "  clear priority".to_owned()
            } else {
                cat("  set priority: ", p.as_str())
            };
            push_step(&mut v, OpKind::SetPriority { priority: opt_nonempty(p) }, report);
        },
        None => {},
    }
    assert(step_views(v@) =~= spec_edit_steps(*c));
    v
}

/// The closing line of an edit.
pub open spec fn spec_edit_summary(applied: nat, nonce: Seq<char>) -> Seq<char> {
    if applied == 0 {
        "Nothing to change. Pass --title, --desc, --add-label, --remove-label, -a, --add-assignee, --remove-assignee, or -p."@
    } else {
        "Applied "@ + dec(applied) + " change(s) to "@ + nonce
    }
}

/// Applies an edit's operations to issue `uuid` in order, stopping at the
/// first one that fails: each step's op is appended to `uuid` with
/// [`Store::append`](crate::store::Store::append). Returns the report lines
/// of the operations applied, the error that stopped it, if one did, and the
/// record of each append made (what git answered at each of its attempts).
/// A refused payload is refused with its own error; otherwise each append's
/// result is what [`append_run`](crate::store::append_run) makes of its
/// record.
pub fn apply_edit(store: &crate::store::Store, uuid: &str, steps: Vec<EditStep>) -> (r: (
    Vec<String>,
    Option<crate::error::GliError>,
    Ghost<Seq<Seq<crate::store::AttemptView>>>,
))
    ensures
        r.0@.len() <= steps@.len(),
        forall|i: int| 0 <= i < r.0@.len() ==> (#[trigger] r.0@[i])@ == steps@[i].report@,
        forall|i: int|
            0 <= i < r.0@.len() ==> crate::store::op_problem((#[trigger] steps@[i]).kind@) is None,
        r.1 is None <==> r.0@.len() == steps@.len(),
        r.2@.len() >= r.0@.len(),
        forall|i: int|
            0 <= i < r.0@.len() ==> crate::store::append_run(uuid@, steps@[i].kind@, 1, #[trigger] r.2@[i])
                matches Some(Ok(_)),
        r.1 matches Some(e) ==> match crate::store::op_problem(steps@[r.0@.len() as int].kind@) {
            Some(p) => e@ == p,
            None => r.2@.len() > r.0@.len() && crate::store::append_run(
                uuid@,
                steps@[r.0@.len() as int].kind@,
                1,
                r.2@[r.0@.len() as int],
            ) == Some(Err::<Seq<char>, crate::error::ErrView>(e@)),
        },
{
    let ghost sv = steps@;
    let ghost mut ts: Seq<Seq<crate::store::AttemptView>> = Seq::empty();
    let mut applied: Vec<String> = Vec::new();
    let n = steps.len();
    let mut i: usize = 0;
    while i < n
        invariant
            n == sv.len(),
            sv == steps@,
            i <= n,
            applied@.len() == i,
            ts.len() == i,
            forall|j: int| 0 <= j < i ==> (#[trigger] applied@[j])@ == sv[j].report@,
            forall|j: int| 0 <= j < i ==> crate::store::op_problem((#[trigger] sv[j]).kind@) is None,
            forall|j: int|
                0 <= j < i ==> crate::store::append_run(uuid@, sv[j].kind@, 1, #[trigger] ts[j]) matches Some(
                    Ok(_),
                ),
        decreases n - i,
    {
        let kind = steps[i].kind.duplicate();
        let report = crate::model::clone_string(&steps[i].report);
        let (res, t) = store.append_traced(uuid, kind);
        match res {
            Ok(_) => {},
            Err(e) => {
                proof {
                    ts = ts.push(t@);
                }
                return (applied, Some(e), Ghost(ts));
            },
        }
        proof {
            ts = ts.push(t@);
        }
        applied.push(report);
        i = i + 1;
    }
    (applied, None, Ghost(ts))
}

pub fn edit_summary(applied: usize, nonce: &str) -> (r: String)
    ensures
        r@ == spec_edit_summary(applied as nat, nonce@),
{
    if applied == 0 {
        "Nothing to change. Pass --title, --desc, --add-label, --remove-label, -a, --add-assignee, --remove-assignee, or -p.".to_owned()
    } else {
        let mut r = "Applied ".to_owned();
        let n = crate::text::usize_to_string(applied);
        crate::text::push_str(&mut r, n.as_str());
        crate::text::push_str(&mut r, " change(s) to ");
        crate::text::push_str(&mut r, nonce);
        r
    }
}

// ---------------------------------------------------------------------------
// create and state
// ---------------------------------------------------------------------------

/// A flag's value where it is given and not empty, else the default.
pub open spec fn flag_or(flag: Option<Seq<char>>, default: Option<Seq<char>>) -> Option<Seq<char>> {
    match flag {
        Some(v) => if v.len() > 0 {
            Some(v)
        } else {
            default
        },
        None => default,
    }
}

/// The labels a new issue gets: those given, or where none are given the
/// comma-separated `gli.default.labels` (pieces trimmed, empty ones dropped).
pub open spec fn labels_or(labels: Seq<Seq<char>>, default: Option<Seq<char>>) -> Seq<Seq<char>> {
    if labels.len() > 0 {
        labels
    } else {
        match default {
            Some(d) => crate::wire::label_list(d),
            None => Seq::empty(),
        }
    }
}

/// Law: an explicit flag always wins over the repository default; the
/// default fills in only for a flag that is absent (for assignee and
/// priority, also for one given empty).
pub proof fn law_explicit_flag_wins(
    flag: Seq<char>,
    default: Option<Seq<char>>,
    labels: Seq<Seq<char>>,
    default_labels: Option<Seq<char>>,
)
    ensures
        flag.len() > 0 ==> flag_or(Some(flag), default) == Some(flag),
        flag_or(None, default) == default,
        labels.len() > 0 ==> labels_or(labels, default_labels) == labels,
{
}

/// The labels, assignee and priority of a new issue once the repository
/// defaults (`gli.default.labels`, `gli.default.assignee`,
/// `gli.default.priority`) fill in the flags that are absent.
pub fn create_fields(
    labels: Vec<String>,
    assignee: Option<String>,
    priority: Option<String>,
    default_labels: Option<String>,
    default_assignee: Option<String>,
    default_priority: Option<String>,
) -> (r: (Vec<String>, Option<String>, Option<String>))
    ensures
        r.0.deep_view() == labels_or(labels.deep_view(), default_labels.deep_view()),
        r.1.deep_view() == flag_or(assignee.deep_view(), default_assignee.deep_view()),
        r.2.deep_view() == flag_or(priority.deep_view(), default_priority.deep_view()),
{
    let ls = if labels.len() > 0 {
        labels
    } else {
        match default_labels {
            Some(d) => crate::wire::split_labels(d.as_str()),
            None => Vec::new(),
        }
    };
    let a = match assignee {
        Some(v) => if v.as_str().is_empty() {
            default_assignee
        } else {
            Some(v)
        },
        None => default_assignee,
    };
    let p = match priority {
        Some(v) => if v.as_str().is_empty() {
            default_priority
        } else {
            Some(v)
        },
        None => default_priority,
    };
    proof {
        if labels@.len() == 0 {
            assert(labels.deep_view().len() == 0);
            if default_labels.is_none() {
                assert(ls.deep_view() =~= Seq::<Seq<char>>::empty());
            }
        }
    }
    (ls, a, p)
}

/// What `gli state` says of a state argument it cannot read.
pub open spec fn bad_state_message(s: Seq<char>) -> Seq<char> {
    "invalid state '"@ + s + "' (open|closed)"@
}

/// Reads the target state of `gli state`: `open` or `closed` (any case,
/// surrounding space ignored), or the message that refuses it.
pub fn state_arg(s: &str) -> (r: Result<State, String>)
    ensures
        match r {
            Ok(st) => crate::model::spec_state_parse(s@) == Some(st),
            Err(m) => crate::model::spec_state_parse(s@) is None && m@ == bad_state_message(s@),
        },
{
    match State::parse(s) {
        Some(st) => Ok(st),
        None => {
            let mut m = String::new();
            crate::text::push_str(&mut m, "invalid state '");
            crate::text::push_str(&mut m, s);
            crate::text::push_str(&mut m, "' (open|closed)");
            Err(m)
        },
    }
}

// ---------------------------------------------------------------------------
// `comment` from an editor
// ---------------------------------------------------------------------------

/// A line the editor template marks as a comment: `#` after leading space.
pub open spec fn hash_line(l: Seq<char>) -> bool {
    let a = crate::text::skip_ws_from(l, 0);
    a < l.len() && l[a] == '#'
}

/// The lines that are not comment lines, in order.
pub open spec fn kept_lines(ls: Seq<Seq<char>>) -> Seq<Seq<char>>
    decreases ls.len(),
{
    if ls.len() == 0 {
        Seq::empty()
    } else if hash_line(ls.last()) {
        kept_lines(ls.drop_last())
    } else {
        kept_lines(ls.drop_last()).push(ls.last())
    }
}

/// Lines joined with newlines.
pub open spec fn join_nl(items: Seq<Seq<char>>) -> Seq<char>
    decreases items.len(),
{
    if items.len() == 0 {
        Seq::empty()
    } else if items.len() == 1 {
        items[0]
    } else {
        join_nl(items.drop_last()) + "\n"@ + items.last()
    }
}

/// The text of a comment written in the editor: the saved file without its
/// `#` lines, surrounding space trimmed.
pub open spec fn spec_editor_text(raw: Seq<char>) -> Seq<char> {
    crate::text::trim(join_nl(kept_lines(text_lines(raw))))
}

fn starts_with_hash(l: &[char]) -> (r: bool)
    ensures
        r == hash_line(l@),
{
    let mut a: usize = 0;
    while a < l.len() && crate::text::is_whitespace(l[a])
        invariant
            a <= l@.len(),
            crate::text::skip_ws_from(l@, a as int) == crate::text::skip_ws_from(l@, 0),
        decreases l@.len() - a,
    {
        a = a + 1;
    }
    a < l.len() && l[a] == '#'
}

/// Reads back the comment saved in the editor: lines starting with `#`
/// (after any leading space) are dropped, and the rest is trimmed.
pub fn editor_text(raw: &str) -> (r: String)
    ensures
        r@ == spec_editor_text(raw@),
{
    let ls = lines_of(raw);
    let mut kept: Vec<String> = Vec::new();
    let mut i: usize = 0;
    while i < ls.len()
        invariant
            i <= ls@.len(),
            kept.deep_view() == kept_lines(ls.deep_view().take(i as int)),
        decreases ls@.len() - i,
    {
        let ghost now = ls.deep_view().take(i as int + 1);
        assert(now.drop_last() =~= ls.deep_view().take(i as int));
        assert(now.last() == ls@[i as int]@);
        let lv = crate::text::to_chars(ls[i].as_str());
        if !starts_with_hash(lv.as_slice()) {
            kept.push(ls[i].clone());
            assert(kept.deep_view() =~= kept_lines(now));
        }
        i = i + 1;
    }
    assert(ls.deep_view().take(ls@.len() as int) =~= ls.deep_view());
    let mut body = String::new();
    let n = kept.len();
    let mut j: usize = 0;
    while j < n
        invariant
            n == kept@.len(),
            j <= n,
            body@ == join_nl(kept.deep_view().take(j as int)),
        decreases n - j,
    {
        if j > 0 {
            crate::text::push_str(&mut body, "\n");
        }
        crate::text::push_str(&mut body, kept[j].as_str());
        proof {
            let t = kept.deep_view().take(j + 1);
            assert(t.drop_last() =~= kept.deep_view().take(j as int));
            assert(t.last() == kept@[j as int]@);
            if j == 0 {
                assert(body@ =~= kept@[0]@);
            }
        }
        j = j + 1;
    }
    assert(kept.deep_view().take(n as int) =~= kept.deep_view());
    crate::text::trim_str(body.as_str())
}

/// The keys `gli config` knows, in the order `gli config list` shows them.
pub fn config_keys() -> (r: Vec<String>)
    ensures
        r.deep_view() == seq!["priority"@, "assignee"@, "labels"@, "format"@],
{
    let mut r: Vec<String> = Vec::new();
    r.push("priority".to_owned());
    r.push("assignee".to_owned());
    r.push("labels".to_owned());
    r.push("format".to_owned());
    assert(r.deep_view() =~= seq!["priority"@, "assignee"@, "labels"@, "format"@]);
    r
}

/// The output format of `gli ls`: the flag, else the configured default,
/// else `short`.
pub fn ls_format(flag: Option<String>, default: Option<String>) -> (r: String)
    ensures
        r@ == match flag {
            Some(f) => f@,
            None => match default {
                Some(d) => d@,
                None => "short"@,
            },
        },
{
    match flag {
        Some(f) => f,
        None => match default {
            Some(d) => d,
            None => "short".to_owned(),
        },
    }
}

// ---------------------------------------------------------------------------
// `field` and `file`
// ---------------------------------------------------------------------------

/// The value `gli field get` prints: that of the field when it has one.
pub open spec fn spec_field_value(v: IssueView, key: Seq<char>) -> Option<Seq<char>> {
    if v.fields.contains_key(key) && v.fields[key].value.len() > 0 {
        Some(v.fields[key].value)
    } else {
        None
    }
}

pub fn field_value(issue: &Issue, key: &str) -> (r: Option<String>)
    ensures
        r.deep_view() == spec_field_value(issue@, key@),
{
    let fs = issue.fields();
    let n = fs.len();
    let mut i: usize = 0;
    while i < n
        invariant
            n == fs@.len(),
            i <= n,
            forall|q: int| 0 <= q < i ==> (#[trigger] fs@[q]).0@ != key@,
            forall|q: int| 0 <= q < n ==> issue@.fields[(#[trigger] fs@[q]).0@].value == fs@[q].1@,
            forall|k: Seq<char>|
                has_key(pair_views(fs@), k) <==> (issue@.fields.contains_key(k)
                    && issue@.fields[k].value.len() > 0),
        decreases n - i,
    {
        if crate::text::str_eq(fs[i].0.as_str(), key) {
            proof {
                assert(has_key(pair_views(fs@), key@)) by {
                    assert(pair_views(fs@)[i as int].0 == key@);
                }
            }
            return Some(fs[i].1.clone());
        }
        i = i + 1;
    }
    proof {
        if has_key(pair_views(fs@), key@) {
            let q = choose|q: int| 0 <= q < pair_views(fs@).len() && (#[trigger] pair_views(fs@)[q]).0 == key@;
            assert(fs@[q].0@ == key@);
        }
    }
    None
}

/// A field as `gli field list` prints it.
pub open spec fn field_entry(f: (Seq<char>, Seq<char>)) -> Seq<char> {
    f.0 + " = "@ + f.1
}

/// What `gli field list` prints: each field with a value, by key.
pub open spec fn spec_field_list_lines(v: IssueView) -> Seq<Seq<char>> {
    let fs = field_listing(v.fields);
    if fs.len() == 0 {
        seq!["No fields set."@]
    } else {
        fs.map_values(|f: (Seq<char>, Seq<char>)| field_entry(f))
    }
}

pub fn field_list_lines(issue: &Issue) -> (r: Vec<String>)
    ensures
        r.deep_view() == spec_field_list_lines(issue@),
{
    let (_a, _l, fs, _f) = listings(issue);
    let mut out: Vec<String> = Vec::new();
    if fs.len() == 0 {
        out.push("No fields set.".to_owned());
        assert(out.deep_view() =~= seq!["No fields set."@]);
        return out;
    }
    let ghost fv = field_listing(issue@.fields);
    let n = fs.len();
    let mut i: usize = 0;
    while i < n
        invariant
            n == fs@.len(),
            pair_views(fs@) == fv,
            i <= n,
            out.deep_view() == fv.take(i as int).map_values(|f: (Seq<char>, Seq<char>)| field_entry(f)),
        decreases n - i,
    {
        let mut l = fs[i].0.clone();
        crate::text::push_str(&mut l, " = ");
        crate::text::push_str(&mut l, fs[i].1.as_str());
        let ghost before = out.deep_view();
        out.push(l);
        proof {
            assert(fv[i as int] == (fs@[i as int].0@, fs@[i as int].1@));
            assert(fv.take(i + 1).map_values(|f: (Seq<char>, Seq<char>)| field_entry(f)) =~= before.push(
                field_entry(fv[i as int]),
            ));
        }
        i = i + 1;
    }
    assert(fv.take(n as int) =~= fv);
    out
}

/// A related file as `gli file list` prints it.
pub open spec fn file_entry(f: (Seq<char>, Option<Seq<char>>)) -> Seq<char> {
    match f.1 {
        Some(n) => f.0 + "  ("@ + n + ")"@,
        None => f.0,
    }
}

/// What `gli file list` prints: each related file, by path, with its note.
pub open spec fn spec_file_list_lines(v: IssueView) -> Seq<Seq<char>> {
    let fs = file_listing(v);
    if fs.len() == 0 {
        seq!["No related files."@]
    } else {
        fs.map_values(|f: (Seq<char>, Option<Seq<char>>)| file_entry(f))
    }
}

pub fn file_list_lines(issue: &Issue) -> (r: Vec<String>)
    ensures
        r.deep_view() == spec_file_list_lines(issue@),
{
    let (_a, _l, _f, fs) = listings(issue);
    let mut out: Vec<String> = Vec::new();
    if fs.len() == 0 {
        out.push("No related files.".to_owned());
        assert(out.deep_view() =~= seq!["No related files."@]);
        return out;
    }
    let ghost fv = file_listing(issue@);
    let n = fs.len();
    let mut i: usize = 0;
    while i < n
        invariant
            n == fs@.len(),
            pair_views2(fs@) == fv,
            i <= n,
            out.deep_view() == fv.take(i as int).map_values(
                |f: (Seq<char>, Option<Seq<char>>)| file_entry(f),
            ),
        decreases n - i,
    {
        let mut l = fs[i].0.clone();
        match &fs[i].1 {
            Some(note) => {
                crate::text::push_str(&mut l, "  (");
                crate::text::push_str(&mut l, note.as_str());
                crate::text::push_str(&mut l, ")");
            },
            None => {},
        }
        let ghost before = out.deep_view();
        out.push(l);
        proof {
            assert(fv[i as int] == (fs@[i as int].0@, fs@[i as int].1.deep_view()));
            assert(fv.take(i + 1).map_values(|f: (Seq<char>, Option<Seq<char>>)| file_entry(f))
                =~= before.push(file_entry(fv[i as int])));
        }
        i = i + 1;
    }
    assert(fv.take(n as int) =~= fv);
    out
}

// ---------------------------------------------------------------------------
// `fsck`
// ---------------------------------------------------------------------------

pub open spec fn prefixed(ps: Seq<Seq<char>>) -> Seq<Seq<char>> {
    ps.map_values(|p: Seq<char>| "fsck: "@ + p)
}

/// How `gli fsck` ends: with no problems, the count of issues checked on
/// standard output and exit code 0; otherwise each problem and their count
/// (for standard error) and exit code 1.
pub open spec fn spec_fsck_verdict(issue_count: nat, problems: Seq<Seq<char>>) -> (Seq<Seq<char>>, int) {
    if problems.len() == 0 {
        (seq!["fsck: "@ + dec(issue_count) + " issue(s) OK."@], 0)
    } else {
        (prefixed(problems) + seq!["fsck: "@ + dec(problems.len()) + " problem(s) found."@], 1)
    }
}

pub fn fsck_verdict(issue_count: usize, problems: &Vec<String>) -> (r: (Vec<String>, i32))
    ensures
        (r.0.deep_view(), r.1 as int) == spec_fsck_verdict(issue_count as nat, problems.deep_view()),
{
    let mut out: Vec<String> = Vec::new();
    if problems.len() == 0 {
        let n = crate::text::usize_to_string(issue_count);
        let mut l = "fsck: ".to_owned();
        crate::text::push_str(&mut l, n.as_str());
        crate::text::push_str(&mut l, " issue(s) OK.");
        out.push(l);
        assert(out.deep_view() =~= seq!["fsck: "@ + dec(issue_count as nat) + " issue(s) OK."@]);
        return (out, 0);
    }
    let n = problems.len();
    let mut i: usize = 0;
    while i < n
        invariant
            n == problems@.len(),
            i <= n,
            out.deep_view() == prefixed(problems.deep_view().take(i as int)),
        decreases n - i,
    {
        let l = cat("fsck: ", problems[i].as_str());
        let ghost before = out.deep_view();
        out.push(l);
        proof {
            let t = problems.deep_view().take(i as int + 1);
            assert(t[i as int] == problems@[i as int]@);
            assert(t.drop_last() =~= problems.deep_view().take(i as int));
            assert(out.deep_view() =~= before.push("fsck: "@ + t[i as int]));
            assert(prefixed(t) =~= prefixed(t.drop_last()).push("fsck: "@ + t[i as int]));
        }
        i = i + 1;
    }
    assert(problems.deep_view().take(n as int) =~= problems.deep_view());
    let c = crate::text::usize_to_string(n);
    let mut l = "fsck: ".to_owned();
    crate::text::push_str(&mut l, c.as_str());
    crate::text::push_str(&mut l, " problem(s) found.");
    let ghost before = out.deep_view();
    out.push(l);
    assert(out.deep_view() =~= before + seq!["fsck: "@ + dec(n as nat) + " problem(s) found."@]);
    (out, 1)
}

// ---------------------------------------------------------------------------
// `status`
// ---------------------------------------------------------------------------

/// The sorted list of the strings with a property.
pub open spec fn sorted_list(p: spec_fn(Seq<char>) -> bool) -> Seq<Seq<char>> {
    choose|s: Seq<Seq<char>>| strictly_sorted(s) && forall|x: Seq<char>| s.contains(x) <==> p(x)
}

proof fn lemma_sorted_list(p: spec_fn(Seq<char>) -> bool, s: Seq<Seq<char>>)
    requires
        strictly_sorted(s),
        forall|x: Seq<char>| s.contains(x) <==> p(x),
    ensures
        sorted_list(p) == s,
{
    let t = sorted_list(p);
    assert(strictly_sorted(t) && forall|x: Seq<char>| t.contains(x) <==> p(x));
    lemma_strictly_sorted_same_set(t, s);
}

/// How many of the first `m` issues have state open.
pub open spec fn count_open(issues: Seq<Issue>, m: int) -> nat
    decreases m,
{
    if m <= 0 {
        0
    } else {
        count_open(issues, m - 1) + if issues[m - 1]@.state.value.state == State::Open {
            1nat
        } else {
            0nat
        }
    }
}

/// How many of the first `m` issues `a` created.
pub open spec fn count_by(issues: Seq<Issue>, a: Seq<char>, m: int) -> nat
    decreases m,
{
    if m <= 0 {
        0
    } else {
        count_by(issues, a, m - 1) + if issues[m - 1].creator@ == a {
            1nat
        } else {
            0nat
        }
    }
}

/// The actors that created more than one issue, sorted.
pub open spec fn multi_actors(issues: Seq<Issue>) -> Seq<Seq<char>> {
    sorted_list(|a: Seq<char>| count_by(issues, a, issues.len() as int) > 1)
}

/// The actor and git identity recorded on an issue's first create op, when
/// it records one.
pub open spec fn create_identity(ops: Seq<OpView>) -> Option<(Seq<char>, Seq<char>)>
    decreases ops.len(),
{
    if ops.len() == 0 {
        None
    } else if ops[0].kind is Create {
        match ops[0].author {
            Some(a) => Some((ops[0].actor, a)),
            None => None,
        }
    } else {
        create_identity(ops.drop_first())
    }
}

pub open spec fn identity_of(logs: Seq<(String, Vec<Op>)>, i: int) -> Option<(Seq<char>, Seq<char>)> {
    create_identity(ops_view(logs[i].1@))
}

/// How many leading elements of `s` are below `x`.
pub open spec fn lt_prefix(s: Seq<Seq<char>>, x: Seq<char>) -> int
    decreases s.len(),
{
    if s.len() == 0 {
        0
    } else if seq_lt(s[0], x) {
        1 + lt_prefix(s.drop_first(), x)
    } else {
        0
    }
}

/// `x` added to a sorted list of distinct strings (nothing changes when it
/// is already there).
pub open spec fn sorted_ins(s: Seq<Seq<char>>, x: Seq<char>) -> Seq<Seq<char>> {
    if s.contains(x) {
        s
    } else {
        s.insert(lt_prefix(s, x), x)
    }
}

/// The git identities behind actor `a` in the first `m` issue logs, sorted.
pub open spec fn ids_upto(logs: Seq<(String, Vec<Op>)>, a: Seq<char>, m: int) -> Seq<Seq<char>>
    decreases m,
{
    if m <= 0 {
        Seq::empty()
    } else {
        let r = ids_upto(logs, a, m - 1);
        match identity_of(logs, m - 1) {
            Some(p) => if p.0 == a {
                sorted_ins(r, p.1)
            } else {
                r
            },
            None => r,
        }
    }
}

/// The git identities behind an actor slug, sorted.
pub open spec fn identities(logs: Seq<(String, Vec<Op>)>, a: Seq<char>) -> Seq<Seq<char>> {
    ids_upto(logs, a, logs.len() as int)
}

/// The actors named with an identity in the first `m` issue logs, sorted.
pub open spec fn id_actors_upto(logs: Seq<(String, Vec<Op>)>, m: int) -> Seq<Seq<char>>
    decreases m,
{
    if m <= 0 {
        Seq::empty()
    } else {
        let r = id_actors_upto(logs, m - 1);
        match identity_of(logs, m - 1) {
            Some(p) => sorted_ins(r, p.0),
            None => r,
        }
    }
}

/// The actor slugs that more than one git identity created issues under,
/// sorted.
pub open spec fn shared_actors(logs: Seq<(String, Vec<Op>)>) -> Seq<Seq<char>> {
    keep(
        id_actors_upto(logs, logs.len() as int),
        |a: Seq<char>| identities(logs, a).len() > 1,
    )
}

/// The tip recorded for a uuid, if any.
pub open spec fn tip_for(tips: Seq<(String, String)>, u: Seq<char>) -> Option<Seq<char>>
    decreases tips.len(),
{
    if tips.len() == 0 {
        None
    } else if tips[0].0@ == u {
        Some(tips[0].1@)
    } else {
        tip_for(tips.drop_first(), u)
    }
}

/// An issue has commits no remote-tracking ref has: its tip is on none.
pub open spec fn unpushed(tips: Seq<(String, String)>, remote: Seq<Seq<char>>, u: Seq<char>) -> bool {
    match tip_for(tips, u) {
        Some(t) => !remote.contains(t),
        None => true,
    }
}

pub open spec fn unpushed_rows(c: Cache, remote: Seq<Seq<char>>, m: int) -> Seq<int>
    decreases m,
{
    if m <= 0 {
        Seq::empty()
    } else if unpushed(c.tips@, remote, c.issues@[m - 1].uuid@) {
        unpushed_rows(c, remote, m - 1).push(m - 1)
    } else {
        unpushed_rows(c, remote, m - 1)
    }
}

/// What `gli status` prints, given the tips of the remote-tracking issue
/// refs: issue counts, which actors' display numbers may drift, actor slugs
/// shared by several identities, and which issues are not on any remote.
pub open spec fn spec_status_lines(c: Cache, remote: Seq<Seq<char>>) -> Seq<Seq<char>> {
    let issues = c.issues@;
    let total = issues.len();
    let open = count_open(issues, total as int);
    let multi = multi_actors(issues);
    let shared = shared_actors(c.ops@);
    let rows = unpushed_rows(c, remote, total as int);
    seq!["Issues: "@ + dec(total) + " ("@ + dec(open) + " open, "@ + dec((total - open) as nat) + " closed)"@]
        + (if multi.len() == 0 {
        seq!["Display numbers: stable (no actor has multiple issues)."@]
    } else {
        seq!["Display numbers: drift-allowed, recomputed each run. Actors with multiple issues:"@]
            + multi_lines(issues, multi)
    }) + (if shared.len() == 0 {
        Seq::empty()
    } else {
        seq!["Actor slugs shared by multiple identities (nonce namespaces overlap):"@]
            + shared_lines(c.ops@, shared)
    }) + (if remote.len() == 0 {
        seq![
            "Sync: no remote issue refs found. All "@ + dec(total) + " issue(s) are local-only."@,
            "      (Push/fetch sync arrives in v2; back up with `git bundle create issues.bundle --glob='refs/issues/*'`.)"@,
        ]
    } else if rows.len() == 0 {
        seq!["Sync: all issues match a remote-tracking ref."@]
    } else {
        seq!["Sync: "@ + dec(rows.len()) + " issue(s) have local commits not on any remote:"@]
            + unpushed_lines(c.display@, issues, rows)
    })
}

/// `  <actor>: <n> issues (numbered by UUIDv7 order)` for each actor.
pub open spec fn multi_lines(issues: Seq<Issue>, ms: Seq<Seq<char>>) -> Seq<Seq<char>>
    decreases ms.len(),
{
    if ms.len() == 0 {
        Seq::empty()
    } else {
        multi_lines(issues, ms.drop_last()).push(
            "  "@ + ms.last() + ": "@ + dec(count_by(issues, ms.last(), issues.len() as int))
                + " issues (numbered by UUIDv7 order)"@,
        )
    }
}

/// `  <actor>: <identities>` for each actor.
pub open spec fn shared_lines(logs: Seq<(String, Vec<Op>)>, ss: Seq<Seq<char>>) -> Seq<Seq<char>>
    decreases ss.len(),
{
    if ss.len() == 0 {
        Seq::empty()
    } else {
        shared_lines(logs, ss.drop_last()).push(
            "  "@ + ss.last() + ": "@ + join_comma(identities(logs, ss.last())),
        )
    }
}

/// `  <nonce>  <title>` for each row.
pub open spec fn unpushed_lines(es: Seq<DisplayIdView>, issues: Seq<Issue>, rows: Seq<int>) -> Seq<Seq<char>>
    decreases rows.len(),
{
    if rows.len() == 0 {
        Seq::empty()
    } else {
        unpushed_lines(es, issues, rows.drop_last()).push(
            "  "@ + display_or_short(es, issues[rows.last()].uuid@).nonce + "  "@
                + issues[rows.last()]@.title.value,
        )
    }
}

proof fn lemma_lt_prefix(s: Seq<Seq<char>>, x: Seq<char>, i: int)
    requires
        0 <= i <= s.len(),
        forall|k: int| 0 <= k < i ==> seq_lt(#[trigger] s[k], x),
        i == s.len() || !seq_lt(s[i], x),
    ensures
        lt_prefix(s, x) == i,
    decreases i,
{
    if i > 0 {
        assert(seq_lt(s[0], x));
        assert forall|k: int| 0 <= k < i - 1 implies seq_lt(#[trigger] s.drop_first()[k], x) by {
            assert(s.drop_first()[k] == s[k + 1]);
        }
        if i < s.len() {
            assert(s.drop_first()[i - 1] == s[i]);
        }
        lemma_lt_prefix(s.drop_first(), x, i - 1);
    }
}

/// Inserts `x` into a strictly sorted list unless it is already there.
fn insert_unique(v: &mut Vec<String>, x: &str)
    requires
        strictly_sorted(old(v).deep_view()),
    ensures
        strictly_sorted(final(v).deep_view()),
        forall|y: Seq<char>| final(v).deep_view().contains(y) <==> (old(v).deep_view().contains(y) || y
            == x@),
        final(v).deep_view() == sorted_ins(old(v).deep_view(), x@),
{
    let ghost pre = v.deep_view();
    let mut i: usize = 0;
    while i < v.len() && crate::text::str_lt(v[i].as_str(), x)
        invariant
            i <= v@.len(),
            pre == v.deep_view(),
            strictly_sorted(pre),
            forall|k: int| 0 <= k < i ==> seq_lt(#[trigger] pre[k], x@),
        decreases v@.len() - i,
    {
        i = i + 1;
    }
    if i < v.len() && crate::text::str_eq(v[i].as_str(), x) {
        assert(pre.contains(x@)) by {
            assert(pre[i as int] == x@);
        }
        return;
    }
    proof {
        if i < pre.len() {
            crate::text::lemma_seq_lt_total(pre[i as int], x@);
        }
        lemma_lt_prefix(pre, x@, i as int);
        assert(!pre.contains(x@)) by {
            if pre.contains(x@) {
                let k = choose|k: int| 0 <= k < pre.len() && pre[k] == x@;
                if k < i {
                    crate::text::lemma_seq_lt_irrefl(x@);
                } else if k > i {
                    assert(seq_lt(pre[i as int], pre[k]));
                    crate::text::lemma_seq_lt_asym(x@, pre[i as int]);
                }
            }
        }
    }
    v.insert(i, x.to_owned());
    proof {
        let post = v.deep_view();
        assert(post =~= pre.insert(i as int, x@));
        if i < pre.len() {
            crate::text::lemma_seq_lt_total(pre[i as int], x@);
        }
        assert forall|a: int, b: int| 0 <= a < b < post.len() implies seq_lt(
            #[trigger] post[a],
            #[trigger] post[b],
        ) by {
            if b < i {
                assert(post[a] == pre[a] && post[b] == pre[b]);
            } else if b == i {
                assert(post[a] == pre[a]);
            } else if a == i {
                assert(post[b] == pre[b - 1]);
                if b - 1 > i {
                    assert(seq_lt(pre[i as int], pre[b - 1]));
                    crate::text::lemma_seq_lt_trans(x@, pre[i as int], pre[b - 1]);
                }
            } else if a < i {
                assert(post[a] == pre[a] && post[b] == pre[b - 1]);
                assert(seq_lt(pre[a], x@));
                if i < pre.len() {
                    crate::text::lemma_seq_lt_trans(pre[a], x@, pre[i as int]);
                    if b - 1 > i {
                        crate::text::lemma_seq_lt_trans(pre[a], pre[i as int], pre[b - 1]);
                    }
                }
            } else {
                assert(post[a] == pre[a - 1] && post[b] == pre[b - 1]);
            }
        }
        assert forall|y: Seq<char>| post.contains(y) <==> (pre.contains(y) || y == x@) by {
            if post.contains(y) {
                let k = choose|k: int| 0 <= k < post.len() && post[k] == y;
                if k < i {
                    assert(pre[k] == y);
                } else if k > i {
                    assert(pre[k - 1] == y);
                }
            }
            if pre.contains(y) {
                let k = choose|k: int| 0 <= k < pre.len() && pre[k] == y;
                if k < i {
                    assert(post[k] == y);
                } else {
                    assert(post[k + 1] == y);
                }
            }
            if y == x@ {
                assert(post[i as int] == y);
            }
        }
    }
}

fn count_creator(issues: &Vec<Issue>, a: &str) -> (r: usize)
    ensures
        r as nat == count_by(issues@, a@, issues@.len() as int),
{
    let n = issues.len();
    let mut c: usize = 0;
    let mut i: usize = 0;
    while i < n
        invariant
            n == issues@.len(),
            i <= n,
            c <= i,
            c as nat == count_by(issues@, a@, i as int),
        decreases n - i,
    {
        if crate::text::str_eq(issues[i].creator.as_str(), a) {
            c = c + 1;
        }
        i = i + 1;
    }
    c
}

fn actors_with_many(issues: &Vec<Issue>) -> (r: Vec<String>)
    ensures
        r.deep_view() == multi_actors(issues@),
{
    let mut all: Vec<String> = Vec::new();
    let n = issues.len();
    let mut i: usize = 0;
    assert(strictly_sorted(all.deep_view()));
    while i < n
        invariant
            n == issues@.len(),
            i <= n,
            strictly_sorted(all.deep_view()),
            forall|y: Seq<char>| all.deep_view().contains(y) <==> exists|k: int| 0 <= k < i && (
            #[trigger] issues@[k]).creator@ == y,
        decreases n - i,
    {
        insert_unique(&mut all, issues[i].creator.as_str());
        proof {
            assert forall|y: Seq<char>| all.deep_view().contains(y) <==> exists|k: int|
                0 <= k < i + 1 && (#[trigger] issues@[k]).creator@ == y by {
                if y == issues@[i as int].creator@ {
                    assert(issues@[i as int].creator@ == y);
                }
            }
        }
        i = i + 1;
    }
    let ghost p = |a: Seq<char>| count_by(issues@, a, issues@.len() as int) > 1;
    let mut out: Vec<String> = Vec::new();
    let m = all.len();
    let mut j: usize = 0;
    assert(all.deep_view().take(0) =~= Seq::<Seq<char>>::empty());
    assert(out.deep_view() =~= keep(all.deep_view().take(0), p));
    while j < m
        invariant
            m == all@.len(),
            j <= m,
            p == (|a: Seq<char>| count_by(issues@, a, issues@.len() as int) > 1),
            out.deep_view() == keep(all.deep_view().take(j as int), p),
        decreases m - j,
    {
        let c = count_creator(issues, all[j].as_str());
        proof {
            let t = all.deep_view().take(j + 1);
            assert(t.drop_last() =~= all.deep_view().take(j as int));
            assert(t.last() == all@[j as int]@);
        }
        if c > 1 {
            let ghost before = out.deep_view();
            out.push(all[j].clone());
            assert(out.deep_view() =~= before.push(all@[j as int]@));
        }
        j = j + 1;
    }
    proof {
        assert(all.deep_view().take(m as int) =~= all.deep_view());
        lemma_keep(all.deep_view(), p);
        assert forall|y: Seq<char>| out.deep_view().contains(y) <==> count_by(issues@, y, issues@.len() as int) > 1 by {
            assert(p(y) == (count_by(issues@, y, issues@.len() as int) > 1));
            if count_by(issues@, y, issues@.len() as int) > 1 {
                lemma_count_by_member(issues@, y, issues@.len() as int);
                let k = choose|k: int| 0 <= k < n && (#[trigger] issues@[k]).creator@ == y;
                assert(exists|k: int| 0 <= k < n && (#[trigger] issues@[k]).creator@ == y);
                assert(all.deep_view().contains(y));
                assert(keep(all.deep_view(), p).contains(y));
            }
            if out.deep_view().contains(y) {
                assert(keep(all.deep_view(), p).contains(y));
                assert(p(y));
            }
        }
        lemma_sorted_list(p, out.deep_view());
    }
    out
}

/// The elements of `s` with property `p`, in order.
pub open spec fn keep(s: Seq<Seq<char>>, p: spec_fn(Seq<char>) -> bool) -> Seq<Seq<char>>
    decreases s.len(),
{
    if s.len() == 0 {
        s
    } else {
        let r = keep(s.drop_last(), p);
        if p(s.last()) {
            r.push(s.last())
        } else {
            r
        }
    }
}

proof fn lemma_keep(s: Seq<Seq<char>>, p: spec_fn(Seq<char>) -> bool)
    requires
        strictly_sorted(s),
    ensures
        strictly_sorted(keep(s, p)),
        forall|x: Seq<char>| #![trigger keep(s, p).contains(x)] keep(s, p).contains(x) <==> (s.contains(x) && p(x)),
    decreases s.len(),
{
    if s.len() > 0 {
        let d = s.drop_last();
        assert(strictly_sorted(d)) by {
            assert forall|i: int, j: int| 0 <= i < j < d.len() implies seq_lt(#[trigger] d[i], #[trigger] d[j]) by {
                assert(d[i] == s[i] && d[j] == s[j]);
            }
        }
        lemma_keep(d, p);
        let r = keep(d, p);
        let x = s.last();
        assert forall|y: Seq<char>| d.contains(y) <==> (s.contains(y) && y != x) by {
            if d.contains(y) {
                let k = choose|k: int| 0 <= k < d.len() && d[k] == y;
                assert(s[k] == y);
                assert(seq_lt(s[k], s[s.len() - 1]));
                crate::text::lemma_seq_lt_irrefl(y);
            }
            if s.contains(y) && y != x {
                let k = choose|k: int| 0 <= k < s.len() && s[k] == y;
                assert(d[k] == y);
            }
        }
        if p(x) {
            let q = r.push(x);
            assert forall|i: int, j: int| 0 <= i < j < q.len() implies seq_lt(#[trigger] q[i], #[trigger] q[j]) by {
                if j == q.len() - 1 {
                    assert(r.contains(q[i]));
                    assert(d.contains(q[i]));
                    let k = choose|k: int| 0 <= k < d.len() && d[k] == q[i];
                    assert(s[k] == q[i]);
                } else {
                    assert(q[i] == r[i] && q[j] == r[j]);
                }
            }
            assert forall|y: Seq<char>| q.contains(y) <==> (s.contains(y) && p(y)) by {
                if q.contains(y) {
                    let k = choose|k: int| 0 <= k < q.len() && q[k] == y;
                    if k < r.len() {
                        assert(r[k] == y);
                        assert(r.contains(y));
                        assert(d.contains(y) && p(y));
                    } else {
                        assert(y == x);
                        assert(s[s.len() - 1] == x);
                    }
                }
                if s.contains(y) && p(y) && y != x {
                    assert(r.contains(y));
                    let k = choose|k: int| 0 <= k < r.len() && r[k] == y;
                    assert(q[k] == y);
                }
                if y == x {
                    assert(q[q.len() - 1] == y);
                }
            }
        } else {
            assert(s.contains(x)) by {
                assert(s[s.len() - 1] == x);
            }
            assert forall|y: Seq<char>| r.contains(y) <==> (s.contains(y) && p(y)) by {
                if r.contains(y) {
                    assert(d.contains(y) && p(y));
                }
                if s.contains(y) && p(y) {
                    assert(y != x);
                    assert(d.contains(y));
                }
            }
        }
    }
}

proof fn lemma_count_by_member(issues: Seq<Issue>, a: Seq<char>, m: int)
    requires
        count_by(issues, a, m) > 0,
    ensures
        exists|k: int| 0 <= k < m && (#[trigger] issues[k]).creator@ == a,
    decreases m,
{
    if m > 0 && issues[m - 1].creator@ != a {
        lemma_count_by_member(issues, a, m - 1);
    }
}

fn create_identity_exec(ops: &Vec<Op>) -> (r: Option<(String, String)>)
    ensures
        match r {
            Some(p) => create_identity(ops_view(ops@)) == Some((p.0@, p.1@)),
            None => create_identity(ops_view(ops@)) is None,
        },
{
    let ghost ov = ops_view(ops@);
    let n = ops.len();
    let mut i: usize = 0;
    assert(ov.skip(0) =~= ov);
    while i < n
        invariant
            n == ops@.len(),
            ov == ops_view(ops@),
            i <= n,
            create_identity(ov) == create_identity(ov.skip(i as int)),
        decreases n - i,
    {
        assert(ov.skip(i as int)[0] == ops@[i as int]@);
        if let OpKind::Create { .. } = &ops[i].kind {
            return match &ops[i].author {
                Some(a) => Some((ops[i].actor.clone(), a.clone())),
                None => None,
            };
        }
        assert(ov.skip(i as int).drop_first() =~= ov.skip(i + 1));
        i = i + 1;
    }
    assert(ov.skip(n as int) =~= Seq::<OpView>::empty());
    None
}

fn identities_exec(logs: &Vec<(String, Vec<Op>)>, a: &str) -> (r: Vec<String>)
    ensures
        r.deep_view() == identities(logs@, a@),
        strictly_sorted(r.deep_view()),
{
    let mut out: Vec<String> = Vec::new();
    let n = logs.len();
    let mut i: usize = 0;
    while i < n
        invariant
            n == logs@.len(),
            i <= n,
            strictly_sorted(out.deep_view()),
            out.deep_view() == ids_upto(logs@, a@, i as int),
        decreases n - i,
    {
        match create_identity_exec(&logs[i].1) {
            Some(p) => {
                if crate::text::str_eq(p.0.as_str(), a) {
                    insert_unique(&mut out, p.1.as_str());
                }
            },
            None => {},
        }
        i = i + 1;
    }
    out
}

fn shared_exec(logs: &Vec<(String, Vec<Op>)>) -> (r: Vec<String>)
    ensures
        r.deep_view() == shared_actors(logs@),
{
    let mut all: Vec<String> = Vec::new();
    let n = logs.len();
    let mut i: usize = 0;
    while i < n
        invariant
            n == logs@.len(),
            i <= n,
            strictly_sorted(all.deep_view()),
            all.deep_view() == id_actors_upto(logs@, i as int),
        decreases n - i,
    {
        match create_identity_exec(&logs[i].1) {
            Some(p) => insert_unique(&mut all, p.0.as_str()),
            None => {},
        }
        i = i + 1;
    }
    let ghost p = |a: Seq<char>| identities(logs@, a).len() > 1;
    let mut out: Vec<String> = Vec::new();
    let m = all.len();
    let mut j: usize = 0;
    assert(all.deep_view().take(0) =~= Seq::<Seq<char>>::empty());
    assert(out.deep_view() =~= keep(all.deep_view().take(0), p));
    while j < m
        invariant
            m == all@.len(),
            j <= m,
            p == (|a: Seq<char>| identities(logs@, a).len() > 1),
            out.deep_view() == keep(all.deep_view().take(j as int), p),
        decreases m - j,
    {
        let ids = identities_exec(logs, all[j].as_str());
        proof {
            let t = all.deep_view().take(j + 1);
            assert(t.drop_last() =~= all.deep_view().take(j as int));
            assert(t.last() == all@[j as int]@);
        }
        if ids.len() > 1 {
            let ghost before = out.deep_view();
            out.push(all[j].clone());
            assert(out.deep_view() =~= before.push(all@[j as int]@));
        }
        j = j + 1;
    }
    assert(all.deep_view().take(m as int) =~= all.deep_view());
    out
}

fn tip_for_exec(tips: &Vec<(String, String)>, u: &str) -> (r: Option<String>)
    ensures
        r.deep_view() == tip_for(tips@, u@),
{
    let n = tips.len();
    let mut i: usize = 0;
    assert(tips@.skip(0) =~= tips@);
    while i < n
        invariant
            n == tips@.len(),
            i <= n,
            tip_for(tips@, u@) == tip_for(tips@.skip(i as int), u@),
        decreases n - i,
    {
        assert(tips@.skip(i as int)[0] == tips@[i as int]);
        if crate::text::str_eq(tips[i].0.as_str(), u) {
            return Some(tips[i].1.clone());
        }
        assert(tips@.skip(i as int).drop_first() =~= tips@.skip(i + 1));
        i = i + 1;
    }
    None
}

fn has_string(v: &Vec<String>, x: &str) -> (r: bool)
    ensures
        r == v.deep_view().contains(x@),
{
    let n = v.len();
    let mut i: usize = 0;
    while i < n
        invariant
            n == v@.len(),
            i <= n,
            forall|k: int| 0 <= k < i ==> v@[k]@ != x@,
        decreases n - i,
    {
        if crate::text::str_eq(v[i].as_str(), x) {
            assert(v.deep_view()[i as int] == x@);
            return true;
        }
        i = i + 1;
    }
    proof {
        if v.deep_view().contains(x@) {
            let k = choose|k: int| 0 <= k < v.deep_view().len() && v.deep_view()[k] == x@;
            assert(v@[k]@ == x@);
        }
    }
    false
}

fn push_all(dst: &mut Vec<String>, src: Vec<String>)
    ensures
        final(dst).deep_view() == old(dst).deep_view() + src.deep_view(),
{
    let ghost a = dst.deep_view();
    let mut s2 = src;
    let ghost b = s2.deep_view();
    dst.append(&mut s2);
    assert(dst.deep_view() =~= a + b);
}

fn multi_block(issues: &Vec<Issue>, multi: &Vec<String>) -> (r: Vec<String>)
    ensures
        r.deep_view() == multi_lines(issues@, multi.deep_view()),
{
    let mut out: Vec<String> = Vec::new();
    let m = multi.len();
    let mut k: usize = 0;
    assert(multi.deep_view().take(0) =~= Seq::<Seq<char>>::empty());
    assert(out.deep_view() =~= multi_lines(issues@, multi.deep_view().take(0)));
    while k < m
        invariant
            m == multi@.len(),
            k <= m,
            out.deep_view() == multi_lines(issues@, multi.deep_view().take(k as int)),
        decreases m - k,
    {
        let c = count_creator(issues, multi[k].as_str());
        let mut l = "  ".to_owned();
        crate::text::push_str(&mut l, multi[k].as_str());
        crate::text::push_str(&mut l, ": ");
        crate::text::push_str(&mut l, crate::text::usize_to_string(c).as_str());
        crate::text::push_str(&mut l, " issues (numbered by UUIDv7 order)");
        push_line(&mut out, l);
        proof {
            let t = multi.deep_view().take(k + 1);
            assert(t.drop_last() =~= multi.deep_view().take(k as int));
            assert(t.last() == multi@[k as int]@);
        }
        k = k + 1;
    }
    assert(multi.deep_view().take(m as int) =~= multi.deep_view());
    out
}

fn shared_block(logs: &Vec<(String, Vec<Op>)>, shared: &Vec<String>) -> (r: Vec<String>)
    ensures
        r.deep_view() == shared_lines(logs@, shared.deep_view()),
{
    let mut out: Vec<String> = Vec::new();
    let m = shared.len();
    let mut k: usize = 0;
    assert(shared.deep_view().take(0) =~= Seq::<Seq<char>>::empty());
    assert(out.deep_view() =~= shared_lines(logs@, shared.deep_view().take(0)));
    while k < m
        invariant
            m == shared@.len(),
            k <= m,
            out.deep_view() == shared_lines(logs@, shared.deep_view().take(k as int)),
        decreases m - k,
    {
        let ids = identities_exec(logs, shared[k].as_str());
        let mut l = "  ".to_owned();
        crate::text::push_str(&mut l, shared[k].as_str());
        crate::text::push_str(&mut l, ": ");
        crate::text::push_str(&mut l, join_comma_exec(&ids).as_str());
        push_line(&mut out, l);
        proof {
            let t = shared.deep_view().take(k + 1);
            assert(t.drop_last() =~= shared.deep_view().take(k as int));
            assert(t.last() == shared@[k as int]@);
        }
        k = k + 1;
    }
    assert(shared.deep_view().take(m as int) =~= shared.deep_view());
    out
}

fn unpushed_block(cache: &Cache, rows: &Vec<usize>) -> (r: Vec<String>)
    requires
        forall|q: int| 0 <= q < rows@.len() ==> (#[trigger] rows@[q]) < cache.issues@.len(),
    ensures
        r.deep_view() == unpushed_lines(cache.display@, cache.issues@, rows@.map_values(|x: usize| x as int)),
{
    let ghost rv = rows@.map_values(|x: usize| x as int);
    let mut out: Vec<String> = Vec::new();
    let m = rows.len();
    let mut k: usize = 0;
    assert(rv.take(0) =~= Seq::<int>::empty());
    assert(out.deep_view() =~= unpushed_lines(cache.display@, cache.issues@, rv.take(0)));
    while k < m
        invariant
            m == rows@.len(),
            forall|q: int| 0 <= q < rows@.len() ==> (#[trigger] rows@[q]) < cache.issues@.len(),
            rv == rows@.map_values(|x: usize| x as int),
            k <= m,
            out.deep_view() == unpushed_lines(cache.display@, cache.issues@, rv.take(k as int)),
        decreases m - k,
    {
        let issue = &cache.issues[rows[k]];
        let d = cache.display_of(issue.uuid.as_str());
        let mut l = "  ".to_owned();
        crate::text::push_str(&mut l, d.nonce.as_str());
        crate::text::push_str(&mut l, "  ");
        crate::text::push_str(&mut l, issue.title());
        push_line(&mut out, l);
        proof {
            let t = rv.take(k + 1);
            assert(t.drop_last() =~= rv.take(k as int));
            assert(t.last() == rows@[k as int] as int);
        }
        k = k + 1;
    }
    assert(rv.take(m as int) =~= rv);
    out
}

fn unpushed_exec(cache: &Cache, remote: &Vec<String>) -> (r: Vec<usize>)
    ensures
        r@.map_values(|x: usize| x as int) == unpushed_rows(*cache, remote.deep_view(), cache.issues@.len() as int),
        forall|k: int| 0 <= k < r@.len() ==> (#[trigger] r@[k]) < cache.issues@.len(),
{
    let total = cache.issues.len();
    let mut rows: Vec<usize> = Vec::new();
    let mut i: usize = 0;
    while i < total
        invariant
            total == cache.issues@.len(),
            i <= total,
            rows@.map_values(|x: usize| x as int) == unpushed_rows(*cache, remote.deep_view(), i as int),
            forall|k: int| 0 <= k < rows@.len() ==> (#[trigger] rows@[k]) < i,
        decreases total - i,
    {
        let tip = tip_for_exec(&cache.tips, cache.issues[i].uuid.as_str());
        let up = match &tip {
            Some(t) => !has_string(remote, t.as_str()),
            None => true,
        };
        let ghost before = rows@;
        if up {
            rows.push(i);
            assert(rows@.map_values(|x: usize| x as int) =~= before.map_values(|x: usize| x as int).push(
                i as int,
            ));
        }
        i = i + 1;
    }
    rows
}

/// What `gli status` prints, given the tips of the remote-tracking issue
/// refs.
pub fn status_lines(cache: &Cache, remote: &Vec<String>) -> (r: Vec<String>)
    ensures
        r.deep_view() == spec_status_lines(*cache, remote.deep_view()),
{
    let total = cache.issues.len();
    let mut open: usize = 0;
    let mut i: usize = 0;
    while i < total
        invariant
            total == cache.issues@.len(),
            i <= total,
            open <= i,
            open as nat == count_open(cache.issues@, i as int),
        decreases total - i,
    {
        if cache.issues[i].state().state == State::Open {
            open = open + 1;
        }
        i = i + 1;
    }
    let mut out: Vec<String> = Vec::new();
    let mut h = "Issues: ".to_owned();
    crate::text::push_str(&mut h, crate::text::usize_to_string(total).as_str());
    crate::text::push_str(&mut h, " (");
    crate::text::push_str(&mut h, crate::text::usize_to_string(open).as_str());
    crate::text::push_str(&mut h, " open, ");
    crate::text::push_str(&mut h, crate::text::usize_to_string(total - open).as_str());
    crate::text::push_str(&mut h, " closed)");
    push_line(&mut out, h);
    let multi = actors_with_many(&cache.issues);
    if multi.len() == 0 {
        push_line(&mut out, "Display numbers: stable (no actor has multiple issues).".to_owned());
    } else {
        push_line(
            &mut out,
            "Display numbers: drift-allowed, recomputed each run. Actors with multiple issues:".to_owned(),
        );
        push_all(&mut out, multi_block(&cache.issues, &multi));
    }
    let shared = shared_exec(&cache.ops);
    if shared.len() > 0 {
        push_line(
            &mut out,
            "Actor slugs shared by multiple identities (nonce namespaces overlap):".to_owned(),
        );
        push_all(&mut out, shared_block(&cache.ops, &shared));
    }
    if remote.len() == 0 {
        let mut l = "Sync: no remote issue refs found. All ".to_owned();
        crate::text::push_str(&mut l, crate::text::usize_to_string(total).as_str());
        crate::text::push_str(&mut l, " issue(s) are local-only.");
        push_line(&mut out, l);
        push_line(
            &mut out,
            "      (Push/fetch sync arrives in v2; back up with `git bundle create issues.bundle --glob='refs/issues/*'`.)".to_owned(),
        );
    } else {
        let rows = unpushed_exec(cache, remote);
        if rows.len() == 0 {
            push_line(&mut out, "Sync: all issues match a remote-tracking ref.".to_owned());
        } else {
            let mut l = "Sync: ".to_owned();
            crate::text::push_str(&mut l, crate::text::usize_to_string(rows.len()).as_str());
            crate::text::push_str(&mut l, " issue(s) have local commits not on any remote:");
            push_line(&mut out, l);
            push_all(&mut out, unpushed_block(cache, &rows));
        }
    }
    assert(out.deep_view() =~= spec_status_lines(*cache, remote.deep_view()));
    out
}


// ---------------------------------------------------------------------------
// What a listing promises
// ---------------------------------------------------------------------------

proof fn lemma_sort_rows_perm(keys: Seq<Seq<char>>, desc: bool, s: Seq<int>)
    ensures
        sort_rows(keys, desc, s).to_multiset() == s.to_multiset(),
    decreases s.len(),
{
    broadcast use vstd::seq_lib::to_multiset_build, vstd::seq_lib::to_multiset_insert;

    if s.len() > 0 {
        lemma_sort_rows_perm(keys, desc, s.drop_last());
        let t = sort_rows(keys, desc, s.drop_last());
        lemma_row_pos_bounds(keys, desc, t, s.last());
        assert(s =~= s.drop_last().push(s.last()));
    }
}

proof fn lemma_listed_rows_members(issues: Seq<Issue>, f: ListFilter, m: int)
    requires
        0 <= m <= issues.len(),
    ensures
        forall|x: int|
            #[trigger] listed_rows(issues, f, m).contains(x) <==> 0 <= x < m && listed(issues[x]@, f),
    decreases m,
{
    if m > 0 {
        lemma_listed_rows_members(issues, f, m - 1);
        let r = listed_rows(issues, f, m - 1);
        if listed(issues[m - 1]@, f) {
            assert forall|x: int| #[trigger] r.push(m - 1).contains(x) <==> r.contains(x) || x == m - 1 by {
                if r.push(m - 1).contains(x) {
                    let q = choose|q: int| 0 <= q < r.len() + 1 && #[trigger] r.push(m - 1)[q] == x;
                    if q < r.len() {
                        assert(r[q] == x);
                    }
                }
                if r.contains(x) {
                    let q = choose|q: int| 0 <= q < r.len() && #[trigger] r[q] == x;
                    assert(r.push(m - 1)[q] == x);
                }
                if x == m - 1 {
                    assert(r.push(m - 1)[r.len() as int] == x);
                }
            }
        }
    }
}

/// Law: a listing shows exactly the issues that pass its filters, and each
/// row it shows passes every one of them: the `--state` state, archived
/// issues only with `--archived` or `--all` (and only they with
/// `--archived`), every `--label`, the `--assignee` among the assignees, the
/// `--priority`, the `--creator`, and the `--search` term in some text.
pub proof fn law_listing_honours_every_filter(issues: Seq<Issue>, f: ListFilter, sort: Seq<char>)
    ensures
        forall|k: int|
            0 <= k < spec_list_rows(issues, f, sort).len() ==> {
                let x = #[trigger] spec_list_rows(issues, f, sort)[k];
                let v = issues[x]@;
                &&& 0 <= x < issues.len()
                &&& f.state matches Some(s) ==> v.state.value.state == s
                &&& !f.all && !f.archived ==> !v.archived.value
                &&& !f.all && f.archived ==> v.archived.value
                &&& forall|i: int| 0 <= i < f.labels@.len() ==> set_present(v.labels, #[trigger] f.labels@[i]@)
                &&& f.assignee matches Some(a) ==> set_present(v.assignees, a@)
                &&& f.priority matches Some(p) ==> v.priority.value == Some(p@)
                &&& f.creator matches Some(c) ==> v.creator == c@
                &&& f.search matches Some(t) ==> matches_search(v, lowercase(t@))
            },
        forall|x: int|
            0 <= x < issues.len() && listed(#[trigger] issues[x]@, f) ==> spec_list_rows(
                issues,
                f,
                sort,
            ).contains(x),
{
    broadcast use vstd::seq_lib::to_multiset_contains;

    let base = listed_rows(issues, f, issues.len() as int);
    let rows = spec_list_rows(issues, f, sort);
    lemma_listed_rows_members(issues, f, issues.len() as int);
    lemma_sort_rows_perm(sort_keys(issues, sort), sort_desc(sort), base);
    assert forall|k: int| 0 <= k < rows.len() implies 0 <= #[trigger] rows[k] < issues.len() && listed(
        issues[rows[k]]@,
        f,
    ) by {
        assert(rows.contains(rows[k]));
        assert(rows.to_multiset().count(rows[k]) > 0);
        assert(base.contains(rows[k]));
    }
    assert forall|x: int| 0 <= x < issues.len() && listed(#[trigger] issues[x]@, f) implies rows.contains(x) by {
        assert(base.contains(x));
        assert(base.to_multiset().count(x) > 0);
    }
}


// ---------------------------------------------------------------------------
// What `show` prints of the state
// ---------------------------------------------------------------------------

/// Law: the third line of `show` is the state line. It starts with
/// `State:    ` and the state; it names the close reason, right after the
/// state, whenever the state carries one; it ends with the fixing commit,
/// as ` (fixed-by: <commit>)`, whenever the state carries one; and it is
/// the bare state when it carries neither.
pub proof fn law_show_state_line(d: DisplayIdView, v: IssueView)
    ensures
        ({
            let ls = spec_show_lines(d, v);
            let st = v.state.value;
            let head = "State:    "@ + state_str(st.state);
            let line = ls[2];
            &&& ls.len() > 2
            &&& line.take(head.len() as int) == head
            &&& st.state == State::Open ==> head == "State:    open"@
            &&& st.state == State::Closed ==> head == "State:    closed"@
            &&& st.reason matches Some(r) ==> line.subrange(
                head.len() as int,
                (head.len() + (" (reason: "@ + r + ")"@).len()) as int,
            ) == " (reason: "@ + r + ")"@
            &&& st.fixed_by matches Some(x) ==> line.skip(
                (line.len() - (" (fixed-by: "@ + x + ")"@).len()) as int,
            ) == " (fixed-by: "@ + x + ")"@
            &&& st.reason is None && st.fixed_by is None ==> line == head
        }),
{
    let ls = spec_show_lines(d, v);
    let st = v.state.value;
    let head = "State:    "@ + state_str(st.state);
    let line = state_line(st);
    assert(ls[2] == line);
    let rs = opt_suffix(st.reason, " (reason: "@);
    let fs = opt_suffix(st.fixed_by, " (fixed-by: "@);
    assert(line == head + rs + fs);
    assert(line.take(head.len() as int) =~= head);
    if st.reason is Some {
        assert(line.subrange(head.len() as int, (head.len() + rs.len()) as int) =~= rs);
    }
    if st.fixed_by is Some {
        assert(line.skip((line.len() - fs.len()) as int) =~= fs);
    }
    if st.reason is None && st.fixed_by is None {
        assert(line =~= head);
    }
    reveal_strlit("State:    ");
    reveal_strlit("open");
    reveal_strlit("closed");
    reveal_strlit("State:    open");
    reveal_strlit("State:    closed");
    assert(st.state == State::Open ==> head =~= "State:    open"@);
    assert(st.state == State::Closed ==> head =~= "State:    closed"@);
}

// ---------------------------------------------------------------------------
// What an edit turns into
// ---------------------------------------------------------------------------

/// Law: an edit becomes one operation per requested change, in the order
/// title, description, each added label, each removed label, sole assignee,
/// each added assignee, each removed assignee, priority; each carries its
/// value unchanged (the description whole, however many lines it has),
/// and an empty assignee or priority clears it.
pub proof fn law_edit_steps_carry_each_change(c: EditChanges)
    ensures
        ({
            let s = spec_edit_steps(c);
            let al = c.add_label.deep_view();
            let rl = c.remove_label.deep_view();
            let aa = c.add_assignee.deep_view();
            let ra = c.remove_assignee.deep_view();
            let nt: int = if c.title is Some { 1 } else { 0 };
            let nd: int = if c.desc is Some { 1 } else { 0 };
            let na: int = if c.assignee is Some { 1 } else { 0 };
            let np: int = if c.priority is Some { 1 } else { 0 };
            let o3 = nt + nd + al.len() + rl.len();
            let o4 = o3 + na;
            let o5 = o4 + aa.len() + ra.len();
            &&& s.len() == o5 + np
            &&& c.title matches Some(t) ==> s[0] == (
                KindView::SetTitle { title: t@ },
                "  set title: "@ + first_line_of(t@),
            )
            &&& c.desc matches Some(d) ==> s[nt] == (
                KindView::SetDescription { description: d@ },
                "  set description"@,
            )
            &&& forall|i: int|
                0 <= i < al.len() ==> #[trigger] s[nt + nd + i] == (
                    KindView::AddLabel { label: al[i] },
                    "  add label: "@ + al[i],
                )
            &&& forall|i: int|
                0 <= i < rl.len() ==> #[trigger] s[nt + nd + al.len() + i] == (
                    KindView::RemoveLabel { label: rl[i] },
                    "  remove label: "@ + rl[i],
                )
            &&& c.assignee matches Some(a) ==> s[o3] == (
                KindView::SetAssignee {
                    assignee: if a@.len() == 0 {
                        None
                    } else {
                        Some(a@)
                    },
                },
                if a@.len() == 0 {
                    "  clear assignees"@
                } else {
                    "  set sole assignee: "@ + a@
                },
            )
            &&& forall|i: int|
                0 <= i < aa.len() ==> #[trigger] s[o4 + i] == (
                    KindView::AddAssignee { assignee: aa[i] },
                    "  add assignee: "@ + aa[i],
                )
            &&& forall|i: int|
                0 <= i < ra.len() ==> #[trigger] s[o4 + aa.len() + i] == (
                    KindView::RemoveAssignee { assignee: ra[i] },
                    "  remove assignee: "@ + ra[i],
                )
            &&& c.priority matches Some(p) ==> s[o5] == (
                KindView::SetPriority {
                    priority: if p@.len() == 0 {
                        None
                    } else {
                        Some(p@)
                    },
                },
                if p@.len() == 0 {
                    "  clear priority"@
                } else {
                    "  set priority: "@ + p@
                },
            )
            &&& forall|k: int|
                0 <= k < s.len() && (#[trigger] s[k]).0 is SetDescription ==> (c.desc matches Some(d)
                    && s[k].0 == KindView::SetDescription { description: d@ })
        }),
{
    let al = c.add_label.deep_view();
    let rl = c.remove_label.deep_view();
    let aa = c.add_assignee.deep_view();
    let ra = c.remove_assignee.deep_view();
    let t1: Seq<(KindView, Seq<char>)> = match c.title {
        Some(t) => seq![(KindView::SetTitle { title: t@ }, "  set title: "@ + first_line_of(t@))],
        None => Seq::empty(),
    };
    let t2: Seq<(KindView, Seq<char>)> = match c.desc {
        Some(d) => seq![(KindView::SetDescription { description: d@ }, "  set description"@)],
        None => Seq::empty(),
    };
    let t3 = label_steps(al, true);
    let t4 = label_steps(rl, false);
    let t5: Seq<(KindView, Seq<char>)> = match c.assignee {
        Some(a) => seq![
            (
                KindView::SetAssignee { assignee: nonempty_opt(a@) },
                if a@.len() == 0 {
                    "  clear assignees"@
                } else {
                    "  set sole assignee: "@ + a@
                },
            ),
        ],
        None => Seq::empty(),
    };
    let t6 = assignee_steps(aa, true);
    let t7 = assignee_steps(ra, false);
    let t8: Seq<(KindView, Seq<char>)> = match c.priority {
        Some(p) => seq![
            (
                KindView::SetPriority { priority: nonempty_opt(p@) },
                if p@.len() == 0 {
                    "  clear priority"@
                } else {
                    "  set priority: "@ + p@
                },
            ),
        ],
        None => Seq::empty(),
    };
    let s = spec_edit_steps(c);
    assert(s == t1 + t2 + t3 + t4 + t5 + t6 + t7 + t8);
    let nt = t1.len() as int;
    let nd = t2.len() as int;
    let o3 = nt + nd + t3.len() + t4.len();
    let o4 = o3 + t5.len();
    let o5 = o4 + t6.len() + t7.len();
    assert forall|k: int| 0 <= k < nt implies s[k] == t1[k] by {}
    assert forall|k: int| nt <= k < nt + nd implies s[k] == t2[k - nt] by {}
    assert forall|k: int| nt + nd <= k < nt + nd + t3.len() implies s[k] == t3[k - nt - nd] by {}
    assert forall|k: int| nt + nd + t3.len() <= k < o3 implies s[k] == t4[k - nt - nd - t3.len()] by {}
    assert forall|k: int| o3 <= k < o4 implies s[k] == t5[k - o3] by {}
    assert forall|k: int| o4 <= k < o4 + t6.len() implies s[k] == t6[k - o4] by {}
    assert forall|k: int| o4 + t6.len() <= k < o5 implies s[k] == t7[k - o4 - t6.len()] by {}
    assert forall|k: int| o5 <= k < s.len() implies s[k] == t8[k - o5] by {}
    assert forall|k: int| 0 <= k < s.len() && (#[trigger] s[k]).0 is SetDescription implies (c.desc
        matches Some(d) && s[k].0 == KindView::SetDescription { description: d@ }) by {
        if k < nt {
        } else if k < nt + nd {
        } else if k < nt + nd + t3.len() {
            assert(t3[k - nt - nd].0 is AddLabel);
        } else if k < o3 {
            assert(t4[k - nt - nd - t3.len()].0 is RemoveLabel);
        } else if k < o4 {
        } else if k < o4 + t6.len() {
            assert(t6[k - o4].0 is AddAssignee);
        } else if k < o5 {
            assert(t7[k - o4 - t6.len()].0 is RemoveAssignee);
        } else {
        }
    }
}


// ---------------------------------------------------------------------------
// The order of a listing
// ---------------------------------------------------------------------------

/// No row goes before one that comes ahead of it.
pub open spec fn rows_sorted(keys: Seq<Seq<char>>, desc: bool, r: Seq<int>) -> bool {
    forall|i: int, j: int| 0 <= i < j < r.len() ==> !goes_before(keys, desc, #[trigger] r[j], #[trigger] r[i])
}

proof fn lemma_not_before_trans(keys: Seq<Seq<char>>, desc: bool, x: int, y: int, z: int)
    requires
        !goes_before(keys, desc, x, y),
        !goes_before(keys, desc, y, z),
    ensures
        !goes_before(keys, desc, x, z),
{
    crate::text::lemma_seq_lt_total(keys[x], keys[y]);
    crate::text::lemma_seq_lt_total(keys[y], keys[z]);
    if goes_before(keys, desc, x, z) {
        if desc {
            if keys[x] != keys[y] {
                crate::text::lemma_seq_lt_trans(keys[z], keys[x], keys[y]);
            }
        } else {
            if keys[x] != keys[y] {
                crate::text::lemma_seq_lt_trans(keys[y], keys[x], keys[z]);
            }
        }
    }
}

proof fn lemma_row_pos_props(keys: Seq<Seq<char>>, desc: bool, t: Seq<int>, x: int)
    requires
        rows_sorted(keys, desc, t),
    ensures
        0 <= row_pos(keys, desc, t, x) <= t.len(),
        forall|k: int| 0 <= k < row_pos(keys, desc, t, x) ==> !goes_before(keys, desc, x, #[trigger] t[k]),
        forall|k: int| row_pos(keys, desc, t, x) <= k < t.len() ==> goes_before(keys, desc, x, #[trigger] t[k]),
    decreases t.len(),
{
    lemma_row_pos_bounds(keys, desc, t, x);
    if t.len() > 0 {
        let d = t.drop_last();
        assert(rows_sorted(keys, desc, d)) by {
            assert forall|i: int, j: int| 0 <= i < j < d.len() implies !goes_before(
                keys,
                desc,
                #[trigger] d[j],
                #[trigger] d[i],
            ) by {
                assert(d[i] == t[i] && d[j] == t[j]);
            }
        }
        lemma_row_pos_props(keys, desc, d, x);
        if !goes_before(keys, desc, x, t.last()) {
            assert forall|k: int| 0 <= k < t.len() implies !goes_before(keys, desc, x, #[trigger] t[k]) by {
                if k < t.len() - 1 {
                    assert(!goes_before(keys, desc, t[t.len() - 1], t[k]));
                    lemma_not_before_trans(keys, desc, x, t[t.len() - 1], t[k]);
                }
            }
        } else {
            assert forall|k: int| 0 <= k < row_pos(keys, desc, t, x) implies !goes_before(
                keys,
                desc,
                x,
                #[trigger] t[k],
            ) by {
                assert(t[k] == d[k]);
            }
            assert forall|k: int| row_pos(keys, desc, t, x) <= k < t.len() implies goes_before(
                keys,
                desc,
                x,
                #[trigger] t[k],
            ) by {
                if k < t.len() - 1 {
                    assert(t[k] == d[k]);
                }
            }
        }
    }
}

proof fn lemma_sort_rows_sorted(keys: Seq<Seq<char>>, desc: bool, s: Seq<int>)
    ensures
        rows_sorted(keys, desc, sort_rows(keys, desc, s)),
    decreases s.len(),
{
    if s.len() > 0 {
        lemma_sort_rows_sorted(keys, desc, s.drop_last());
        let t = sort_rows(keys, desc, s.drop_last());
        let x = s.last();
        lemma_row_pos_props(keys, desc, t, x);
        let p = row_pos(keys, desc, t, x);
        let u = t.insert(p, x);
        assert forall|i: int, j: int| 0 <= i < j < u.len() implies !goes_before(
            keys,
            desc,
            #[trigger] u[j],
            #[trigger] u[i],
        ) by {
            if j < p {
                assert(u[i] == t[i] && u[j] == t[j]);
            } else if j == p {
                assert(u[i] == t[i]);
            } else if i == p {
                assert(u[j] == t[j - 1]);
                assert(goes_before(keys, desc, x, t[j - 1]));
                if desc {
                    crate::text::lemma_seq_lt_asym(keys[t[j - 1]], keys[x]);
                } else {
                    crate::text::lemma_seq_lt_asym(keys[x], keys[t[j - 1]]);
                }
            } else if i < p {
                assert(u[i] == t[i] && u[j] == t[j - 1]);
            } else {
                assert(u[i] == t[i - 1] && u[j] == t[j - 1]);
            }
        }
    }
}

/// Law: a listing is in the order asked for: by lowercased title, A to Z,
/// for `title`; by uuid (so by creation time), oldest first, for `oldest`;
/// newest first for any other order.
pub proof fn law_listing_order(issues: Seq<Issue>, f: ListFilter, sort: Seq<char>)
    ensures
        forall|a: int, b: int|
            0 <= a < b < spec_list_rows(issues, f, sort).len() ==> {
                let x = #[trigger] spec_list_rows(issues, f, sort)[a];
                let y = #[trigger] spec_list_rows(issues, f, sort)[b];
                &&& sort == "title"@ ==> !seq_lt(
                    lowercase(issues[y]@.title.value),
                    lowercase(issues[x]@.title.value),
                )
                &&& sort == "oldest"@ ==> !seq_lt(issues[y].uuid@, issues[x].uuid@)
                &&& sort != "title"@ && sort != "oldest"@ ==> !seq_lt(issues[x].uuid@, issues[y].uuid@)
            },
{
    let keys = sort_keys(issues, sort);
    let base = listed_rows(issues, f, issues.len() as int);
    let rows = spec_list_rows(issues, f, sort);
    lemma_sort_rows_sorted(keys, sort_desc(sort), base);
    lemma_listing_rows_in_range(issues, f, sort);
    assert forall|a: int, b: int| 0 <= a < b < rows.len() implies {
        let x = #[trigger] rows[a];
        let y = #[trigger] rows[b];
        &&& sort == "title"@ ==> !seq_lt(lowercase(issues[y]@.title.value), lowercase(issues[x]@.title.value))
        &&& sort == "oldest"@ ==> !seq_lt(issues[y].uuid@, issues[x].uuid@)
        &&& sort != "title"@ && sort != "oldest"@ ==> !seq_lt(issues[x].uuid@, issues[y].uuid@)
    } by {
        reveal_strlit("title");
        reveal_strlit("oldest");
        assert("title"@ != "oldest"@) by {
            assert("title"@[0] != "oldest"@[0]);
        }
        assert(!goes_before(keys, sort_desc(sort), rows[b], rows[a]));
        assert(keys[rows[a]] == (if sort == "title"@ { lowercase(issues[rows[a]]@.title.value) } else { issues[rows[a]].uuid@ }));
        assert(keys[rows[b]] == (if sort == "title"@ { lowercase(issues[rows[b]]@.title.value) } else { issues[rows[b]].uuid@ }));
    }
}

proof fn lemma_listing_rows_in_range(issues: Seq<Issue>, f: ListFilter, sort: Seq<char>)
    ensures
        forall|k: int|
            0 <= k < spec_list_rows(issues, f, sort).len() ==> 0 <= #[trigger] spec_list_rows(
                issues,
                f,
                sort,
            )[k] < issues.len(),
{
    law_listing_honours_every_filter(issues, f, sort);
}


proof fn lemma_contains_in_left(a: Seq<Seq<char>>, b: Seq<Seq<char>>, x: Seq<char>)
    requires
        a.contains(x),
    ensures
        (a + b).contains(x),
{
    let i = choose|i: int| 0 <= i < a.len() && a[i] == x;
    assert((a + b)[i] == x);
}

proof fn lemma_contains_in_right(a: Seq<Seq<char>>, b: Seq<Seq<char>>, x: Seq<char>)
    requires
        b.contains(x),
    ensures
        (a + b).contains(x),
{
    let i = choose|i: int| 0 <= i < b.len() && b[i] == x;
    assert((a + b)[a.len() + i] == x);
}

/// Law: `show` opens with the issue's handle and uuid, then its title; it
/// names its creator, its priority when one is set, that it is archived
/// when it is; and it ends with "No comments." when there are none, else
/// it heads its comments with their number.
#[verifier::spinoff_prover]
#[verifier::rlimit(40)]
pub proof fn law_show_names_the_issue(d: DisplayIdView, v: IssueView)
    ensures
        ({
            let ls = spec_show_lines(d, v);
            &&& ls[0] == d.nonce + "  ("@ + v.uuid + ")"@
            &&& ls[1] == "Title:    "@ + v.title.value
            &&& ls.contains("Creator:  "@ + v.creator)
            &&& v.priority.value matches Some(p) ==> ls.contains("Priority: "@ + p)
            &&& v.archived.value ==> ls.contains("Archived: yes"@)
            &&& v.comments.len() == 0 ==> ls.last() == "\nNo comments."@
            &&& v.comments.len() > 0 ==> ls.contains("\nComments ("@ + dec(v.comments.len()) + "):"@)
        }),
{
    let assignees = member_list(v.assignees);
    let labels = member_list(v.labels);
    let files = file_listing(v);
    let p0 = seq![d.nonce + "  ("@ + v.uuid + ")"@, "Title:    "@ + v.title.value, state_line(v.state.value)];
    let p1 = opt_line(assignees.len() > 0, "Assignees: "@ + join_comma(assignees));
    let p2: Seq<Seq<char>> = match v.priority.value {
        Some(p) => seq!["Priority: "@ + p],
        None => Seq::empty(),
    };
    let p3 = opt_line(labels.len() > 0, "Labels:   "@ + join_comma(labels));
    let p4 = field_lines(field_listing(v.fields));
    let p5 = seq!["Creator:  "@ + v.creator];
    let p6 = opt_line(v.archived.value, "Archived: yes"@);
    let p7: Seq<Seq<char>> = if files.len() > 0 {
        seq!["Files:"@] + files.map_values(|f: (Seq<char>, Option<Seq<char>>)| file_line(f))
    } else {
        Seq::empty()
    };
    let p8 = opt_line(v.description.value.len() > 0, "\n"@ + v.description.value);
    let p9: Seq<Seq<char>> = if v.comments.len() == 0 {
        seq!["\nNo comments."@]
    } else {
        seq!["\nComments ("@ + dec(v.comments.len()) + "):"@] + comment_lines(v.comments)
    };
    let ls = spec_show_lines(d, v);
    let q1 = p0 + p1;
    let q2 = q1 + p2;
    let q3 = q2 + p3;
    let q4 = q3 + p4;
    let q5 = q4 + p5;
    let q6 = q5 + p6;
    let q7 = q6 + p7;
    let q8 = q7 + p8;
    assert(ls == q8 + p9);
    assert(ls[0] == p0[0] && ls[1] == p0[1]);
    // Creator.
    assert(p5.contains("Creator:  "@ + v.creator)) by { assert(p5[0] == "Creator:  "@ + v.creator); }
    lemma_contains_in_right(q4, p5, "Creator:  "@ + v.creator);
    lemma_contains_in_left(q5, p6, "Creator:  "@ + v.creator);
    lemma_contains_in_left(q6, p7, "Creator:  "@ + v.creator);
    lemma_contains_in_left(q7, p8, "Creator:  "@ + v.creator);
    lemma_contains_in_left(q8, p9, "Creator:  "@ + v.creator);
    // Priority.
    if v.priority.value is Some {
        let x = "Priority: "@ + v.priority.value->Some_0;
        assert(p2[0] == x);
        assert(p2.contains(x));
        lemma_contains_in_right(q1, p2, x);
        lemma_contains_in_left(q2, p3, x);
        lemma_contains_in_left(q3, p4, x);
        lemma_contains_in_left(q4, p5, x);
        lemma_contains_in_left(q5, p6, x);
        lemma_contains_in_left(q6, p7, x);
        lemma_contains_in_left(q7, p8, x);
        lemma_contains_in_left(q8, p9, x);
    }
    // Archived.
    if v.archived.value {
        let x = "Archived: yes"@;
        assert(p6[0] == x);
        assert(p6.contains(x));
        lemma_contains_in_right(q5, p6, x);
        lemma_contains_in_left(q6, p7, x);
        lemma_contains_in_left(q7, p8, x);
        lemma_contains_in_left(q8, p9, x);
    }
    // Comments.
    if v.comments.len() == 0 {
        assert(ls.last() == p9[0]);
    } else {
        let x = "\nComments ("@ + dec(v.comments.len()) + "):"@;
        assert(p9[0] == x);
        assert(p9.contains(x));
        lemma_contains_in_right(q8, p9, x);
    }
}

} // verus!
