//! The git access seam.
//!
//! All git access flows through the [`GitBackend`] trait, so the library
//! never runs git itself: a backend (the command-line one lives with the
//! program) lists the issue refs, reads commit chains, writes commits and
//! moves refs. What the library decides from what a backend hands back is
//! verified here, and so is the parsing of `git cat-file --batch` output.
use crate::error::{ErrView, GliError};
use vstd::prelude::*;

verus! {

#[verifier::external_type_specification]
#[verifier::external_body]
pub struct ExPathBuf(std::path::PathBuf);

/// One entry under `refs/issues/`.
#[derive(Clone, Debug)]
pub struct RefEntry {
    /// The issue uuid (the ref's leaf name).
    pub uuid: String,
    /// The commit the ref points at (chain tip).
    pub tip: String,
}

/// A raw commit read back from git, before op parsing.
#[derive(Clone, Debug)]
pub struct RawCommit {
    pub sha: String,
    pub parents: Vec<String>,
    pub author_name: String,
    pub author_email: String,
    pub author_time: i64,
    pub message: String,
}

/// The git identity to stamp on a new op commit.
#[derive(Clone, Debug)]
pub struct Author {
    pub name: String,
    pub email: String,
}

pub struct RawCommitView {
    pub sha: Seq<char>,
    pub parents: Seq<Seq<char>>,
    pub author_name: Seq<char>,
    pub author_email: Seq<char>,
    pub author_time: i64,
    pub message: Seq<char>,
}

impl View for RawCommit {
    type V = RawCommitView;

    open spec fn view(&self) -> RawCommitView {
        RawCommitView {
            sha: self.sha@,
            parents: self.parents.deep_view(),
            author_name: self.author_name@,
            author_email: self.author_email@,
            author_time: self.author_time,
            message: self.message@,
        }
    }
}

/// The one seam for all git access. Nothing is promised of what an
/// implementation returns; the library's contracts hold for every outcome.
pub trait GitBackend {
    /// Absolute path of the repository working tree root.
    fn repo_root(&self) -> Result<std::path::PathBuf, GliError>;

    /// Read a single git config value (`None` if unset or empty).
    fn config(&self, key: &str) -> Option<String>;

    /// List every `refs/issues/*` ref with its tip commit.
    fn list_issue_refs(&self) -> Result<Vec<RefEntry>, GliError>;

    /// Read an issue's whole commit chain, oldest first.
    fn read_chain(&self, tip: &str) -> Result<Vec<RawCommit>, GliError>;

    /// Create a commit with the empty tree, optional parent, and the given
    /// message and author. Returns the new commit sha.
    fn commit_op(&self, parent: Option<&str>, message: &str, author: &Author) -> Result<
        String,
        GliError,
    >;

    /// Point a ref at `new`, optionally guarded by its expected `old` value
    /// (compare-and-swap; `None` when creating a new ref).
    fn update_ref(&self, refname: &str, new: &str, old: Option<&str>) -> Result<(), GliError>;

    /// Delete a ref outright (irreversible).
    fn delete_ref(&self, refname: &str) -> Result<(), GliError>;
}

// ---------------------------------------------------------------------------
// Reading `git cat-file --batch` output
// ---------------------------------------------------------------------------

/// `String::from_utf8_lossy` of some bytes: the text they encode, with each
/// invalid sequence replaced by U+FFFD.
pub uninterp spec fn lossy(b: Seq<u8>) -> Seq<char>;

/// Trusted: `String::from_utf8_lossy`. What it returns depends on the bytes
/// alone; its decoding rules are not restated here.
#[verifier::external_body]
fn utf8_lossy(b: &[u8]) -> (r: String)
    ensures
        r@ == lossy(b@),
{
    String::from_utf8_lossy(b).into_owned()
}

/// `str::parse::<i64>`: an optional sign, then decimal digits, in range.
pub open spec fn parse_i64(w: Seq<char>) -> Option<int> {
    if w.len() > 0 && w[0] == '-' {
        let d = w.drop_first();
        if d.len() > 0 && crate::text::all_digits(d) && crate::text::digits_val(d) <= 0x8000_0000_0000_0000 {
            Some(-(crate::text::digits_val(d) as int))
        } else {
            None
        }
    } else {
        match crate::text::parse_unsigned(w, i64::MAX as nat) {
            Some(n) => Some(n as int),
            None => None,
        }
    }
}

/// `split_whitespace().next()`: the first run of non-whitespace characters.
pub open spec fn first_word(t: Seq<char>) -> Option<Seq<char>> {
    let a = crate::text::skip_ws_from(t, 0);
    if a >= t.len() {
        None
    } else {
        Some(t.subrange(a, word_end(t, a)))
    }
}

/// The end of the run of non-whitespace characters starting at `i`.
pub open spec fn word_end(t: Seq<char>, i: int) -> int
    decreases t.len() - i,
{
    if 0 <= i < t.len() && !crate::text::is_ws(t[i]) {
        word_end(t, i + 1)
    } else {
        i
    }
}

/// A git identity line body, `Name <email> <unix-time> <tz>`, as
/// `(name, email, time)`; a missing or unreadable time reads as 0.
pub open spec fn spec_parse_identity(s: Seq<char>) -> (Seq<char>, Seq<char>, i64) {
    let lt = crate::text::idx_of(s, '<');
    let gt = crate::text::idx_of(s, '>');
    let (name, email) = if lt < s.len() && gt < s.len() && lt < gt {
        (crate::text::trim(s.subrange(0, lt)), s.subrange(lt + 1, gt))
    } else {
        (crate::text::trim(s), Seq::empty())
    };
    let time = if gt < s.len() {
        match first_word(s.subrange(gt + 1, s.len() as int)) {
            Some(w) => match parse_i64(w) {
                Some(n) => n as i64,
                None => 0,
            },
            None => 0,
        }
    } else {
        0
    };
    (name, email, time)
}

fn word_at(v: &[char], a: usize) -> (r: usize)
    requires
        a <= v@.len(),
    ensures
        r as int == word_end(v@, a as int),
        a <= r <= v@.len(),
{
    let mut i = a;
    while i < v.len() && !crate::text::is_whitespace(v[i])
        invariant
            a <= i <= v@.len(),
            word_end(v@, i as int) == word_end(v@, a as int),
        decreases v@.len() - i,
    {
        i = i + 1;
    }
    i
}

fn parse_i64_chars(w: &[char]) -> (r: Option<i64>)
    ensures
        match r {
            Some(n) => parse_i64(w@) == Some(n as int),
            None => parse_i64(w@) is None,
        },
{
    if w.len() > 0 && w[0] == '-' {
        let d = crate::text::copy_range(w, 1, w.len());
        assert(d@ =~= w@.drop_first());
        if d.len() == 0 {
            return None;
        }
        let mut k: usize = 0;
        while k < d.len()
            invariant
                k <= d@.len(),
                w@.len() > 0,
                w@[0] == '-',
                d@ == w@.drop_first(),
                forall|q: int| 0 <= q < k ==> crate::text::is_ascii_digit(#[trigger] d@[q]),
            decreases d@.len() - k,
        {
            if !crate::text::is_digit(d[k]) {
                assert(!crate::text::is_ascii_digit(d@[k as int]));
                assert(!crate::text::all_digits(d@));
                return None;
            }
            k = k + 1;
        }
        assert(crate::text::is_ascii_digit(d@[0]));
        assert(crate::text::strip_plus(d@) == d@);
        match crate::text::parse_u64_chars(d.as_slice(), 0x8000_0000_0000_0000u64) {
            Some(m) => {
                if m == 0x8000_0000_0000_0000u64 {
                    Some(i64::MIN)
                } else {
                    Some(-(m as i64))
                }
            },
            None => None,
        }
    } else {
        match crate::text::parse_u64_chars(w, i64::MAX as u64) {
            Some(m) => Some(m as i64),
            None => None,
        }
    }
}

/// Reads a git identity line body: `Name <email> <unix-time> <tz>`.
pub fn parse_identity(s: &str) -> (r: (String, String, i64))
    ensures
        (r.0@, r.1@, r.2) == spec_parse_identity(s@),
{
    let v = crate::text::to_chars(s);
    let lt = crate::text::index_of(v.as_slice(), '<');
    let gt = crate::text::index_of(v.as_slice(), '>');
    let (name, email) = if lt < v.len() && gt < v.len() && lt < gt {
        let head = crate::text::copy_range(v.as_slice(), 0, lt);
        let (a, b) = crate::text::trim_range(head.as_slice());
        (
            crate::text::range_to_string(head.as_slice(), a, b),
            crate::text::range_to_string(v.as_slice(), lt + 1, gt),
        )
    } else {
        let (a, b) = crate::text::trim_range(v.as_slice());
        (crate::text::range_to_string(v.as_slice(), a, b), String::new())
    };
    let time: i64 = if gt < v.len() {
        let rest = crate::text::copy_range(v.as_slice(), gt + 1, v.len());
        let mut a: usize = 0;
        while a < rest.len() && crate::text::is_whitespace(rest[a])
            invariant
                a <= rest@.len(),
                crate::text::skip_ws_from(rest@, a as int) == crate::text::skip_ws_from(rest@, 0),
            decreases rest@.len() - a,
        {
            a = a + 1;
        }
        if a >= rest.len() {
            0
        } else {
            let e = word_at(rest.as_slice(), a);
            let w = crate::text::copy_range(rest.as_slice(), a, e);
            match parse_i64_chars(w.as_slice()) {
                Some(n) => n,
                None => 0,
            }
        }
    } else {
        0
    };
    (name, email, time)
}


/// The index of the first blank line separator (`"\n\n"`) at or after `i`,
/// or the length of `t` when there is none.
pub open spec fn blank_from(t: Seq<char>, i: int) -> int
    decreases t.len() - i,
{
    if 0 <= i && i + 1 < t.len() {
        if t[i] == '\n' && t[i + 1] == '\n' {
            i
        } else {
            blank_from(t, i + 1)
        }
    } else {
        t.len() as int
    }
}

/// The header block of a commit object: everything before the first blank line.
pub open spec fn header_block(t: Seq<char>) -> Seq<char> {
    let b = blank_from(t, 0);
    if b < t.len() {
        t.subrange(0, b)
    } else {
        t
    }
}

/// The message of a commit object: everything after the first blank line.
pub open spec fn message_block(t: Seq<char>) -> Seq<char> {
    let b = blank_from(t, 0);
    if b < t.len() {
        t.subrange(b + 2, t.len() as int)
    } else {
        Seq::empty()
    }
}

/// The rest of a header line after `key`.
pub open spec fn after(l: Seq<char>, key: Seq<char>) -> Seq<char> {
    l.subrange(key.len() as int, l.len() as int)
}

/// The `parent` headers among the given lines, trimmed, in order.
pub open spec fn header_parents(ls: Seq<Seq<char>>) -> Seq<Seq<char>>
    decreases ls.len(),
{
    if ls.len() == 0 {
        Seq::empty()
    } else {
        let p = header_parents(ls.drop_last());
        if crate::text::is_prefix("parent "@, ls.last()) {
            p.push(crate::text::trim(after(ls.last(), "parent "@)))
        } else {
            p
        }
    }
}

/// The body of the last `author` header among the given lines.
pub open spec fn last_author(ls: Seq<Seq<char>>) -> Option<Seq<char>>
    decreases ls.len(),
{
    if ls.len() == 0 {
        None
    } else if !crate::text::is_prefix("parent "@, ls.last()) && crate::text::is_prefix(
        "author "@,
        ls.last(),
    ) {
        Some(after(ls.last(), "author "@))
    } else {
        last_author(ls.drop_last())
    }
}

/// The author fields read from an `author` header body, if there is one.
pub open spec fn author_fields(a: Option<Seq<char>>) -> (Seq<char>, Seq<char>, i64) {
    match a {
        Some(b) => spec_parse_identity(b),
        None => (Seq::empty(), Seq::empty(), 0),
    }
}

/// The commit that a commit object's text describes.
pub open spec fn spec_commit(sha: Seq<char>, t: Seq<char>) -> RawCommitView {
    let ls = crate::cli::text_lines(header_block(t));
    let (n, e, tm) = author_fields(last_author(ls));
    RawCommitView {
        sha,
        parents: header_parents(ls),
        author_name: n,
        author_email: e,
        author_time: tm,
        message: message_block(t),
    }
}

fn blank_at(t: &[char]) -> (r: usize)
    ensures
        r as int == blank_from(t@, 0),
        r <= t@.len(),
        r < t@.len() ==> r + 1 < t@.len(),
{
    let mut i: usize = 0;
    while i < t.len() && i + 1 < t.len()
        invariant
            i <= t@.len(),
            blank_from(t@, i as int) == blank_from(t@, 0),
        decreases t@.len() - i,
    {
        if t[i] == '\n' && t[i + 1] == '\n' {
            return i;
        }
        i = i + 1;
    }
    t.len()
}

/// Reads a raw commit object: `tree`/`parent`/`author`/`committer` headers,
/// a blank line, then the message. The last `author` header wins; a commit
/// without one has an empty author and time 0.
pub fn parse_commit_object(sha: String, content: &[u8]) -> (r: RawCommit)
    ensures
        r@ == spec_commit(sha@, lossy(content@)),
{
    let text = utf8_lossy(content);
    let tv = crate::text::to_chars(text.as_str());
    let b = blank_at(tv.as_slice());
    let (headers, message) = if b < tv.len() {
        (
            crate::text::range_to_string(tv.as_slice(), 0, b),
            crate::text::range_to_string(tv.as_slice(), b + 2, tv.len()),
        )
    } else {
        (text, String::new())
    };
    let ls = crate::cli::lines_of(headers.as_str());
    let pk = crate::text::to_chars("parent ");
    let ak = crate::text::to_chars("author ");
    let mut parents: Vec<String> = Vec::new();
    let mut author_name = String::new();
    let mut author_email = String::new();
    let mut author_time: i64 = 0;
    let mut i: usize = 0;
    while i < ls.len()
        invariant
            i <= ls@.len(),
            pk@ == "parent "@,
            ak@ == "author "@,
            parents.deep_view() == header_parents(ls.deep_view().take(i as int)),
            (author_name@, author_email@, author_time) == author_fields(
                last_author(ls.deep_view().take(i as int)),
            ),
        decreases ls@.len() - i,
    {
        let ghost pre = ls.deep_view().take(i as int);
        let ghost now = ls.deep_view().take(i as int + 1);
        assert(now.drop_last() =~= pre);
        assert(now.last() == ls@[i as int]@);
        let lv = crate::text::to_chars(ls[i].as_str());
        if crate::text::chars_starts_with(lv.as_slice(), pk.as_slice()) {
            let rest = crate::text::copy_range(lv.as_slice(), pk.len(), lv.len());
            let (a, z) = crate::text::trim_range(rest.as_slice());
            parents.push(crate::text::range_to_string(rest.as_slice(), a, z));
            proof {
                assert(parents.deep_view() =~= header_parents(pre).push(
                    crate::text::trim(after(now.last(), "parent "@)),
                ));
            }
        } else if crate::text::chars_starts_with(lv.as_slice(), ak.as_slice()) {
            let rest = crate::text::range_to_string(lv.as_slice(), ak.len(), lv.len());
            let (n, e, tm) = parse_identity(rest.as_str());
            author_name = n;
            author_email = e;
            author_time = tm;
            proof {
                assert(parents.deep_view() =~= header_parents(now));
            }
        } else {
            proof {
                assert(parents.deep_view() =~= header_parents(now));
            }
        }
        i = i + 1;
    }
    proof {
        assert(ls.deep_view().take(ls@.len() as int) =~= ls.deep_view());
    }
    RawCommit { sha, parents, author_name, author_email, author_time, message }
}


/// The index of the first newline byte at or after `i`, or the length of
/// `b` when there is none.
pub open spec fn newline_from(b: Seq<u8>, i: int) -> int
    decreases b.len() - i,
{
    if 0 <= i < b.len() {
        if b[i] == 10 {
            i
        } else {
            newline_from(b, i + 1)
        }
    } else {
        b.len() as int
    }
}

pub proof fn lemma_newline_from(b: Seq<u8>, i: int)
    requires
        0 <= i,
    ensures
        i <= newline_from(b, i) <= b.len() || (i > b.len() && newline_from(b, i) == b.len()),
    decreases b.len() - i,
{
    if 0 <= i < b.len() && b[i] != 10 {
        lemma_newline_from(b, i + 1);
    }
}

pub open spec fn bad_size_message(header: Seq<char>) -> Seq<char> {
    "bad cat-file size in `"@ + header + "`"@
}

/// The models of some commits.
pub open spec fn commit_views(v: Seq<RawCommit>) -> Seq<RawCommitView> {
    v.map_values(|c: RawCommit| c@)
}

/// What `git cat-file --batch` output read from `pos` on yields: for each
/// `<sha> <type> <size>` header line, the commit object of `size` bytes that
/// follows it. Reading stops quietly at a header without three
/// space-separated parts (such as `<sha> missing`) or without a newline; a
/// size that is not a number, or content running past the end, is an error.
pub open spec fn spec_parse_batch(b: Seq<u8>, pos: int) -> Result<Seq<RawCommitView>, ErrView>
    decreases b.len() + 1 - pos,
{
    if pos < 0 || pos >= b.len() {
        Ok(Seq::empty())
    } else {
        let nl = newline_from(b, pos);
        proof {
            lemma_newline_from(b, pos);
        }
        if nl >= b.len() {
            Ok(Seq::empty())
        } else {
            let header = lossy(b.subrange(pos, nl));
            let parts = crate::text::split_on(header, ' ');
            if parts.len() != 3 {
                Ok(Seq::empty())
            } else {
                match crate::text::parse_unsigned(crate::text::trim(parts[2]), usize::MAX as nat) {
                    None => Err(ErrView::Git(bad_size_message(header))),
                    Some(size) => {
                        let end = nl + 1 + size;
                        if end > b.len() {
                            Err(ErrView::Git("truncated cat-file output"@))
                        } else {
                            let c = spec_commit(parts[0], lossy(b.subrange(nl + 1, end)));
                            match spec_parse_batch(b, end + 1) {
                                Ok(rest) => Ok(seq![c] + rest),
                                Err(e) => Err(e),
                            }
                        }
                    },
                }
            }
        }
    }
}

/// `spec_parse_batch` from `pos`, after the commits already read.
pub open spec fn batch_after(done: Seq<RawCommitView>, b: Seq<u8>, pos: int) -> Result<
    Seq<RawCommitView>,
    ErrView,
> {
    match spec_parse_batch(b, pos) {
        Ok(rest) => Ok(done + rest),
        Err(e) => Err(e),
    }
}

fn newline_at(b: &[u8], pos: usize) -> (r: usize)
    requires
        pos <= b@.len(),
    ensures
        r as int == newline_from(b@, pos as int),
        pos <= r <= b@.len(),
{
    let mut i = pos;
    while i < b.len()
        invariant
            pos <= i <= b@.len(),
            newline_from(b@, i as int) == newline_from(b@, pos as int),
        decreases b@.len() - i,
    {
        if b[i] == 10u8 {
            return i;
        }
        i = i + 1;
    }
    i
}

/// Reads `git cat-file --batch` output into the commits it holds, in order.
pub fn parse_batch(bytes: &[u8]) -> (r: Result<Vec<RawCommit>, GliError>)
    ensures
        match r {
            Ok(v) => spec_parse_batch(bytes@, 0) == Ok::<Seq<RawCommitView>, ErrView>(commit_views(v@)),
            Err(e) => spec_parse_batch(bytes@, 0) == Err::<Seq<RawCommitView>, ErrView>(e@),
        },
{
    let mut commits: Vec<RawCommit> = Vec::new();
    let mut pos: usize = 0;
    while pos < bytes.len()
        invariant
            pos <= bytes@.len(),
            spec_parse_batch(bytes@, 0) == batch_after(commit_views(commits@), bytes@, pos as int),
        decreases bytes@.len() - pos,
    {
        let nl = newline_at(bytes, pos);
        if nl >= bytes.len() {
            proof {
                assert(commit_views(commits@) + Seq::<RawCommitView>::empty() =~= commit_views(commits@));
            }
            return Ok(commits);
        }
        let header = utf8_lossy(vstd::slice::slice_subrange(bytes, pos, nl));
        let hv = crate::text::to_chars(header.as_str());
        let parts = crate::text::split_chars(hv.as_slice(), ' ');
        if parts.len() != 3 {
            proof {
                assert(commit_views(commits@) + Seq::<RawCommitView>::empty() =~= commit_views(commits@));
            }
            return Ok(commits);
        }
        let (a, z) = crate::text::trim_range(parts[2].as_slice());
        let sz = crate::text::copy_range(parts[2].as_slice(), a, z);
        let max: u64 = usize::MAX as u64;
        let size = match crate::text::parse_u64_chars(sz.as_slice(), max) {
            Some(n) => n as usize,
            None => {
                let mut m = String::new();
                crate::text::push_str(&mut m, "bad cat-file size in `");
                crate::text::push_str(&mut m, header.as_str());
                crate::text::push_str(&mut m, "`");
                return Err(GliError::Git(m));
            },
        };
        let start = nl + 1;
        if size > bytes.len() - start {
            return Err(GliError::Git(String::from_str("truncated cat-file output")));
        }
        let end = start + size;
        let sha = crate::text::from_chars(parts[0].as_slice());
        let c = parse_commit_object(sha, vstd::slice::slice_subrange(bytes, start, end));
        let ghost before = commits@;
        commits.push(c);
        proof {
            let hs = bytes@.subrange(pos as int, nl as int);
            assert(header@ == lossy(hs));
            assert(parts@[2]@ == crate::text::split_on(lossy(hs), ' ')[2]);
            assert(parts@[0]@ == crate::text::split_on(lossy(hs), ' ')[0]);
            assert(sz@ == crate::text::trim(parts@[2]@));
            assert(commit_views(commits@) =~= commit_views(before).push(c@));
            assert(spec_parse_batch(bytes@, pos as int) == match spec_parse_batch(
                bytes@,
                end + 1,
            ) {
                Ok(rest) => Ok(seq![c@] + rest),
                Err(e) => Err(e),
            });
            match spec_parse_batch(bytes@, end + 1) {
                Ok(rest) => {
                    assert(commit_views(before) + (seq![c@] + rest) =~= commit_views(commits@) + rest);
                },
                Err(e) => {},
            }
        }
        if end >= bytes.len() {
            return Ok(commits);
        }
        pos = end + 1;
    }
    proof {
        assert(commit_views(commits@) + Seq::<RawCommitView>::empty() =~= commit_views(commits@));
    }
    Ok(commits)
}


// ---------------------------------------------------------------------------
// Reading `git for-each-ref` output
// ---------------------------------------------------------------------------

/// The `(name, tip)` of each ref entry.
pub open spec fn entry_views(v: Seq<RefEntry>) -> Seq<(Seq<char>, Seq<char>)> {
    v.map_values(|e: RefEntry| (e.uuid@, e.tip@))
}

/// A `%(refname)%00%(objectname)` line as `(name, tip)`, split at its first
/// NUL; with `strip`, a leading `refs/issues/` is taken off the name. A line
/// without a NUL is no entry.
pub open spec fn ref_line(l: Seq<char>, strip: bool) -> Option<(Seq<char>, Seq<char>)> {
    let i = crate::text::idx_of(l, '\0');
    if i < l.len() {
        let name = l.subrange(0, i);
        let uuid = if strip && crate::text::is_prefix("refs/issues/"@, name) {
            after(name, "refs/issues/"@)
        } else {
            name
        };
        Some((uuid, l.subrange(i + 1, l.len() as int)))
    } else {
        None
    }
}

/// The entries of the given lines, in order.
pub open spec fn ref_lines(ls: Seq<Seq<char>>, strip: bool) -> Seq<(Seq<char>, Seq<char>)>
    decreases ls.len(),
{
    if ls.len() == 0 {
        Seq::empty()
    } else {
        let p = ref_lines(ls.drop_last(), strip);
        match ref_line(ls.last(), strip) {
            Some(e) => p.push(e),
            None => p,
        }
    }
}

/// Reads `git for-each-ref --format=%(refname)%00%(objectname)` output into
/// ref entries. With `strip`, names under `refs/issues/` are given by their
/// leaf (the issue uuid); lines without a NUL are skipped.
pub fn parse_ref_lines(out: &str, strip: bool) -> (r: Vec<RefEntry>)
    ensures
        entry_views(r@) == ref_lines(crate::cli::text_lines(out@), strip),
{
    let ls = crate::cli::lines_of(out);
    let prefix = crate::text::to_chars("refs/issues/");
    let mut r: Vec<RefEntry> = Vec::new();
    let mut i: usize = 0;
    while i < ls.len()
        invariant
            i <= ls@.len(),
            prefix@ == "refs/issues/"@,
            entry_views(r@) == ref_lines(ls.deep_view().take(i as int), strip),
        decreases ls@.len() - i,
    {
        let ghost pre = ls.deep_view().take(i as int);
        let ghost now = ls.deep_view().take(i as int + 1);
        assert(now.drop_last() =~= pre);
        assert(now.last() == ls@[i as int]@);
        let lv = crate::text::to_chars(ls[i].as_str());
        let k = crate::text::index_of(lv.as_slice(), '\0');
        if k < lv.len() {
            let name = crate::text::copy_range(lv.as_slice(), 0, k);
            let tip = crate::text::range_to_string(lv.as_slice(), k + 1, lv.len());
            let uuid = if strip && crate::text::chars_starts_with(name.as_slice(), prefix.as_slice()) {
                crate::text::range_to_string(name.as_slice(), prefix.len(), name.len())
            } else {
                crate::text::from_chars(name.as_slice())
            };
            let ghost before = r@;
            r.push(RefEntry { uuid, tip });
            proof {
                assert(entry_views(r@) =~= entry_views(before).push(
                    ref_line(now.last(), strip).unwrap(),
                ));
            }
        }
        i = i + 1;
    }
    proof {
        assert(ls.deep_view().take(ls@.len() as int) =~= ls.deep_view());
    }
    r
}


/// A config value as `git config --get` printed it: trimmed, and no value
/// at all when nothing but space is left.
pub open spec fn spec_config_value(out: Seq<char>) -> Option<Seq<char>> {
    let t = crate::text::trim(out);
    if t.len() > 0 {
        Some(t)
    } else {
        None
    }
}

/// Reads the value `git config --get` printed (`None` if unset or empty).
pub fn config_value(out: &str) -> (r: Option<String>)
    ensures
        r.deep_view() == spec_config_value(out@),
{
    let v = crate::text::to_chars(out);
    let (a, b) = crate::text::trim_range(v.as_slice());
    if a < b {
        Some(crate::text::range_to_string(v.as_slice(), a, b))
    } else {
        None
    }
}

} // verus!
