//! Git commit-message trailers: the wire format for op metadata.
//!
//! A commit message is `subject`, an optional free-form `body`, then a trailing
//! block of `Key: value` lines (git's own trailer convention). The body is kept
//! verbatim (comment text, description) and structured metadata goes in the
//! trailer block. Unknown trailer keys are kept on read and ignored by the
//! model, so a newer writer never breaks an older reader.
use crate::text::{
    contains_char, is_trimmed, is_ws, lemma_blank_iff_all_ws, lemma_idx_of_unique, lemma_join_split,
    lemma_split_append, lemma_split_join, lemma_split_pieces, lemma_trim_ws_prefix, copy_range, idx_of, index_of, is_alnum, is_alpha, is_ascii_alnum, is_ascii_alpha, is_blank,
    is_blank_chars, join_with, lemma_idx_of, lemma_split_nonempty, push_char, push_chars, push_str,
    range_to_string, split_chars, split_on, str_eq, to_chars, trim, trim_range,
};
use vstd::prelude::*;

verus! {

// ---------------------------------------------------------------------------
// The model
// ---------------------------------------------------------------------------

/// A trailer key: a non-empty run of ASCII letters, digits and hyphens that
/// starts with a letter.
pub open spec fn valid_key(k: Seq<char>) -> bool {
    &&& k.len() > 0
    &&& is_ascii_alpha(k[0])
    &&& forall|i: int| 0 <= i < k.len() ==> is_ascii_alnum(#[trigger] k[i]) || k[i] == '-'
}

/// One line read as a trailer: the key before the first `:` and the trimmed
/// value after it, when the key is valid.
pub open spec fn spec_parse_trailer(l: Seq<char>) -> Option<(Seq<char>, Seq<char>)> {
    let i = idx_of(l, ':');
    if i < l.len() && valid_key(l.subrange(0, i)) {
        Some((l.subrange(0, i), trim(l.subrange(i + 1, l.len() as int))))
    } else {
        None
    }
}

/// Key/value pairs folded into a map; a later pair wins for a repeated key.
pub open spec fn pairs_map(ps: Seq<(Seq<char>, Seq<char>)>) -> Map<Seq<char>, Seq<char>>
    decreases ps.len(),
{
    if ps.len() == 0 {
        Map::empty()
    } else {
        pairs_map(ps.drop_last()).insert(ps.last().0, ps.last().1)
    }
}

/// The trailer lines of a block folded into a map (lines that do not parse
/// are skipped; a later line wins for a repeated key).
pub open spec fn lines_map(ls: Seq<Seq<char>>) -> Map<Seq<char>, Seq<char>>
    decreases ls.len(),
{
    if ls.len() == 0 {
        Map::empty()
    } else {
        match spec_parse_trailer(ls.last()) {
            Some(kv) => lines_map(ls.drop_last()).insert(kv.0, kv.1),
            None => lines_map(ls.drop_last()),
        }
    }
}

/// `e` moved down over trailing blank lines, never below 1.
pub open spec fn strip_end(ls: Seq<Seq<char>>, e: int) -> int
    decreases e,
{
    if 1 < e && e <= ls.len() && is_blank(ls[e - 1]) {
        strip_end(ls, e - 1)
    } else {
        e
    }
}

/// `t` moved down over trailer lines, never below 1.
pub open spec fn trailer_start(ls: Seq<Seq<char>>, t: int) -> int
    decreases t,
{
    if 1 < t && t <= ls.len() && spec_parse_trailer(ls[t - 1]) is Some {
        trailer_start(ls, t - 1)
    } else {
        t
    }
}

/// `i` moved up over blank lines.
pub open spec fn front_blank(ls: Seq<Seq<char>>, i: int) -> int
    decreases ls.len() - i,
{
    if 0 <= i < ls.len() && is_blank(ls[i]) {
        front_blank(ls, i + 1)
    } else {
        i
    }
}

/// `j` moved down over blank lines, never below `lo`.
pub open spec fn back_blank(ls: Seq<Seq<char>>, lo: int, j: int) -> int
    decreases j - lo,
{
    if lo < j && j <= ls.len() && is_blank(ls[j - 1]) {
        back_blank(ls, lo, j - 1)
    } else {
        j
    }
}

/// Lines with the blank lines at both ends removed.
pub open spec fn strip_blank_lines(ls: Seq<Seq<char>>) -> Seq<Seq<char>> {
    let bs = front_blank(ls, 0);
    ls.subrange(bs, back_blank(ls, bs, ls.len() as int))
}

/// Where the parts of a message stand: the end of its content, the start of
/// its trailer block, and whether that block counts as trailers.
pub open spec fn layout(ls: Seq<Seq<char>>) -> (int, int, bool) {
    let end = strip_end(ls, ls.len() as int);
    let tb = trailer_start(ls, end);
    (end, tb, tb < end && 1 < tb && is_blank(ls[tb - 1]))
}

/// The body lines of a message: between the subject and the trailer block
/// (or the end), before the blank lines around them are stripped.
pub open spec fn body_region(ls: Seq<Seq<char>>) -> Seq<Seq<char>> {
    let (end, tb, has) = layout(ls);
    let body_end = if has {
        tb
    } else {
        end
    };
    ls.subrange(if body_end >= 1 {
        1
    } else {
        body_end
    }, body_end)
}

/// `(subject, body, trailers)` of a commit message.
///
/// The trailer block is the last paragraph when every one of its lines is a
/// trailer and a blank line separates it from what comes before. A
/// single-paragraph message has no trailers. The body is kept
/// verbatim between the subject and the trailer block; only the blank lines
/// around it are dropped.
pub open spec fn spec_split_message(m: Seq<char>) -> (Seq<char>, Seq<char>, Map<
    Seq<char>,
    Seq<char>,
>) {
    let ls = split_on(m, '\n');
    let (end, tb, has) = layout(ls);
    let trailers = if has {
        lines_map(ls.subrange(tb, end))
    } else {
        Map::empty()
    };
    (trim(ls[0]), join_with(strip_blank_lines(body_region(ls)), '\n'), trailers)
}

// ---------------------------------------------------------------------------
// Parsing
// ---------------------------------------------------------------------------

fn valid_key_chars(k: &[char], n: usize) -> (r: bool)
    requires
        n <= k@.len(),
    ensures
        r == valid_key(k@.subrange(0, n as int)),
{
    let ghost key = k@.subrange(0, n as int);
    if n == 0 {
        return false;
    }
    if !is_alpha(k[0]) {
        return false;
    }
    let mut i: usize = 0;
    while i < n
        invariant
            n <= k@.len(),
            key == k@.subrange(0, n as int),
            i <= n,
            forall|j: int| 0 <= j < i ==> is_ascii_alnum(#[trigger] key[j]) || key[j] == '-',
        decreases n - i,
    {
        let c = k[i];
        if !(is_alnum(c) || c == '-') {
            assert(key[i as int] == c);
            return false;
        }
        i = i + 1;
    }
    true
}

/// Reads one line as a trailer (`Key: value`), or `None` when it is not one.
pub fn trailer_of_chars(line: &[char]) -> (r: Option<(String, String)>)
    ensures
        match r {
            Some(kv) => spec_parse_trailer(line@) == Some((kv.0@, kv.1@)),
            None => spec_parse_trailer(line@) is None,
        },
{
    let i = index_of(line, ':');
    proof {
        lemma_idx_of(line@, ':');
    }
    if i >= line.len() {
        return None;
    }
    if !valid_key_chars(line, i) {
        return None;
    }
    let key = range_to_string(line, 0, i);
    let rest = copy_range(line, i + 1, line.len());
    let (a, b) = trim_range(rest.as_slice());
    let value = range_to_string(rest.as_slice(), a, b);
    Some((key, value))
}

/// Reads one line as a trailer (`Key: value`).
pub fn parse_trailer_line(line: &str) -> (r: Option<(String, String)>)
    ensures
        match r {
            Some(kv) => spec_parse_trailer(line@) == Some((kv.0@, kv.1@)),
            None => spec_parse_trailer(line@) is None,
        },
{
    let v = to_chars(line);
    trailer_of_chars(v.as_slice())
}

// ---------------------------------------------------------------------------
// The trailers read from a message
// ---------------------------------------------------------------------------

/// The trailers of a message, keyed by trailer key.
pub struct Trailers {
    entries: Vec<(String, String)>,
}

pub open spec fn pair_views(ps: Seq<(String, String)>) -> Seq<(Seq<char>, Seq<char>)> {
    ps.map_values(|p: (String, String)| (p.0@, p.1@))
}

impl View for Trailers {
    type V = Map<Seq<char>, Seq<char>>;

    closed spec fn view(&self) -> Map<Seq<char>, Seq<char>> {
        pairs_map(pair_views(self.entries@))
    }
}

/// The value that `pairs_map` gives a key is the one of its last pair.
proof fn lemma_pairs_map_last(ps: Seq<(Seq<char>, Seq<char>)>, k: Seq<char>, j: int)
    requires
        0 <= j < ps.len(),
        ps[j].0 == k,
        forall|i: int| j < i < ps.len() ==> (#[trigger] ps[i]).0 != k,
    ensures
        pairs_map(ps).contains_key(k),
        pairs_map(ps)[k] == ps[j].1,
    decreases ps.len(),
{
    if j < ps.len() - 1 {
        assert forall|i: int| j < i < ps.drop_last().len() implies (
        #[trigger] ps.drop_last()[i]).0 != k by {
            assert(ps.drop_last()[i] == ps[i]);
        }
        lemma_pairs_map_last(ps.drop_last(), k, j);
    }
}

proof fn lemma_pairs_map_absent(ps: Seq<(Seq<char>, Seq<char>)>, k: Seq<char>)
    requires
        forall|i: int| 0 <= i < ps.len() ==> (#[trigger] ps[i]).0 != k,
    ensures
        !pairs_map(ps).contains_key(k),
    decreases ps.len(),
{
    if ps.len() > 0 {
        assert forall|i: int| 0 <= i < ps.drop_last().len() implies (
        #[trigger] ps.drop_last()[i]).0 != k by {
            assert(ps.drop_last()[i] == ps[i]);
        }
        lemma_pairs_map_absent(ps.drop_last(), k);
    }
}

impl Trailers {
    pub fn new() -> (t: Trailers)
        ensures
            t@ == Map::<Seq<char>, Seq<char>>::empty(),
    {
        Trailers { entries: Vec::new() }
    }

    /// Sets `key` to `value`, replacing an earlier value.
    pub fn insert(&mut self, key: String, value: String)
        ensures
            final(self)@ == old(self)@.insert(key@, value@),
    {
        let ghost before = pair_views(self.entries@);
        self.entries.push((key, value));
        proof {
            let after = pair_views(self.entries@);
            assert(after.drop_last() =~= before);
        }
    }

    /// The value of `key`, if it has one.
    pub fn get(&self, key: &str) -> (r: Option<&String>)
        ensures
            match r {
                Some(v) => self@.contains_key(key@) && self@[key@] == v@,
                None => !self@.contains_key(key@),
            },
    {
        let ghost ps = pair_views(self.entries@);
        let mut i = self.entries.len();
        while i > 0
            invariant
                i <= self.entries@.len(),
                ps == pair_views(self.entries@),
                forall|j: int| i <= j < ps.len() ==> (#[trigger] ps[j]).0 != key@,
            decreases i,
        {
            i = i - 1;
            if str_eq(self.entries[i].0.as_str(), key) {
                proof {
                    lemma_pairs_map_last(ps, key@, i as int);
                }
                return Some(&self.entries[i].1);
            }
        }
        proof {
            lemma_pairs_map_absent(ps, key@);
        }
        None
    }

    pub fn contains_key(&self, key: &str) -> (r: bool)
        ensures
            r == self@.contains_key(key@),
    {
        self.get(key).is_some()
    }

    pub fn is_empty(&self) -> (r: bool)
        ensures
            r == (self@ == Map::<Seq<char>, Seq<char>>::empty()),
    {
        proof {
            if self.entries@.len() > 0 {
                let ps = pair_views(self.entries@);
                let k = ps.last().0;
                assert(pairs_map(ps).contains_key(k));
                assert(!Map::<Seq<char>, Seq<char>>::empty().contains_key(k));
            } else {
                assert(pair_views(self.entries@) =~= Seq::<(Seq<char>, Seq<char>)>::empty());
                assert(pairs_map(pair_views(self.entries@)) =~= Map::<
                    Seq<char>,
                    Seq<char>,
                >::empty());
            }
        }
        self.entries.len() == 0
    }
}

// ---------------------------------------------------------------------------
// Splitting a message
// ---------------------------------------------------------------------------

/// Joins lines `[a, b)` of `lines` with `\n`.
fn join_lines(lines: &Vec<Vec<char>>, a: usize, b: usize) -> (r: String)
    requires
        a <= b <= lines@.len(),
    ensures
        r@ == join_with(lines@.map_values(|v: Vec<char>| v@).subrange(a as int, b as int), '\n'),
{
    let ghost ls = lines@.map_values(|v: Vec<char>| v@);
    let mut r = String::new();
    if a == b {
        assert(ls.subrange(a as int, b as int).len() == 0);
        return r;
    }
    push_chars(&mut r, lines[a].as_slice());
    let mut i: usize = a + 1;
    proof {
        assert(ls.subrange(a as int, a + 1) =~= seq![ls[a as int]]);
        assert(r@ =~= ls[a as int]);
    }
    while i < b
        invariant
            a < i <= b,
            b <= lines@.len(),
            ls == lines@.map_values(|v: Vec<char>| v@),
            r@ == join_with(ls.subrange(a as int, i as int), '\n'),
        decreases b - i,
    {
        let ghost prev = ls.subrange(a as int, i as int);
        push_char(&mut r, '\n');
        push_chars(&mut r, lines[i].as_slice());
        proof {
            lemma_join_push(prev, ls[i as int], '\n');
            assert(ls.subrange(a as int, i + 1) =~= prev.push(ls[i as int]));
            assert(r@ =~= join_with(prev, '\n') + seq!['\n'] + ls[i as int]);
        }
        i = i + 1;
    }
    r
}

pub proof fn lemma_join_push(ps: Seq<Seq<char>>, p: Seq<char>, c: char)
    requires
        ps.len() >= 1,
    ensures
        join_with(ps.push(p), c) == join_with(ps, c) + seq![c] + p,
    decreases ps.len(),
{
    if ps.len() == 1 {
        assert(ps.push(p).drop_first() =~= seq![p]);
        assert(join_with(seq![p], c) == p);
        assert(join_with(ps.push(p), c) =~= ps[0] + seq![c] + p);
    } else {
        lemma_join_push(ps.drop_first(), p, c);
        assert(ps.push(p).drop_first() =~= ps.drop_first().push(p));
        assert(join_with(ps.push(p), c) =~= ps[0] + seq![c] + (join_with(ps.drop_first(), c)
            + seq![c] + p));
    }
}

/// Splits a commit message into (subject, body, trailers); see
/// `spec_split_message` for the rules.
pub fn split_message(message: &str) -> (r: (String, String, Trailers))
    ensures
        (r.0@, r.1@, r.2@) == spec_split_message(message@),
{
    let chars = to_chars(message);
    let lines = split_chars(chars.as_slice(), '\n');
    let ghost ls = split_on(chars@, '\n');
    proof {
        lemma_split_nonempty(chars@, '\n');
        assert(lines@.map_values(|v: Vec<char>| v@) =~= ls);
    }
    let n = lines.len();
    let (sa, sb) = trim_range(lines[0].as_slice());
    let subject = range_to_string(lines[0].as_slice(), sa, sb);

    let mut end = n;
    while end > 1 && is_blank_chars(lines[end - 1].as_slice())
        invariant
            n == ls.len(),
            lines@.map_values(|v: Vec<char>| v@) == ls,
            1 <= end <= n || (end == n && n <= 1),
            strip_end(ls, end as int) == strip_end(ls, n as int),
        decreases end,
    {
        assert(lines@[end - 1]@ == ls[end - 1]);
        end = end - 1;
    }
    assert(end >= 1);
    let mut tb = end;
    while tb > 1 && trailer_of_chars(lines[tb - 1].as_slice()).is_some()
        invariant
            n == ls.len(),
            lines@.map_values(|v: Vec<char>| v@) == ls,
            1 <= tb <= end <= n,
            end as int == strip_end(ls, n as int),
            trailer_start(ls, tb as int) == trailer_start(ls, end as int),
        decreases tb,
    {
        assert(lines@[tb - 1]@ == ls[tb - 1]);
        tb = tb - 1;
    }
    let has_trailers = tb < end && 1 < tb && is_blank_chars(lines[tb - 1].as_slice());
    proof {
        if tb < end && 1 < tb {
            assert(lines@[tb - 1]@ == ls[tb - 1]);
        }
        assert(layout(ls) == (end as int, tb as int, has_trailers));
    }

    let mut trailers = Trailers::new();
    if has_trailers {
        let mut i = tb;
        while i < end
            invariant
                tb <= i <= end <= n,
                n == ls.len(),
                lines@.map_values(|v: Vec<char>| v@) == ls,
                trailers@ == lines_map(ls.subrange(tb as int, i as int)),
            decreases end - i,
        {
            let parsed = trailer_of_chars(lines[i].as_slice());
            proof {
                assert(lines@[i as int]@ == ls[i as int]);
                assert(ls.subrange(tb as int, i + 1).drop_last() =~= ls.subrange(
                    tb as int,
                    i as int,
                ));
                assert(ls.subrange(tb as int, i + 1).last() == ls[i as int]);
            }
            match parsed {
                Some(kv) => {
                    let (k, v) = kv;
                    trailers.insert(k, v);
                },
                None => {},
            }
            i = i + 1;
        }
    }
    let body_end = if has_trailers {
        tb
    } else {
        end
    };
    let lo: usize = if body_end >= 1 {
        1
    } else {
        body_end
    };
    let ghost bl = ls.subrange(lo as int, body_end as int);
    assert(bl == body_region(ls));
    let mut bs: usize = 0;
    let bn = body_end - lo;
    while bs < bn && is_blank_chars(lines[lo + bs].as_slice())
        invariant
            lo <= body_end <= n,
            bn == body_end - lo,
            n == ls.len(),
            lines@.map_values(|v: Vec<char>| v@) == ls,
            bl == ls.subrange(lo as int, body_end as int),
            bs <= bn,
            front_blank(bl, bs as int) == front_blank(bl, 0),
        decreases bn - bs,
    {
        assert(lines@[lo + bs]@ == bl[bs as int]);
        bs = bs + 1;
    }
    let mut be: usize = bn;
    while be > bs && is_blank_chars(lines[lo + be - 1].as_slice())
        invariant
            lo <= body_end <= n,
            bn == body_end - lo,
            n == ls.len(),
            lines@.map_values(|v: Vec<char>| v@) == ls,
            bl == ls.subrange(lo as int, body_end as int),
            bs <= be <= bn,
            bs as int == front_blank(bl, 0),
            back_blank(bl, bs as int, be as int) == back_blank(bl, bs as int, bn as int),
        decreases be,
    {
        assert(lines@[lo + be - 1]@ == bl[be - 1]);
        be = be - 1;
    }
    let body = join_lines(&lines, lo + bs, lo + be);
    proof {
        assert(bl.subrange(bs as int, be as int) =~= ls.subrange(lo + bs, lo + be));
        assert(strip_blank_lines(bl) == bl.subrange(bs as int, be as int));
        if !has_trailers {
            assert(trailers@ =~= Map::<Seq<char>, Seq<char>>::empty());
        }
    }
    (subject, body, trailers)
}

// ---------------------------------------------------------------------------
// Building a trailer block
// ---------------------------------------------------------------------------

/// A value with each newline turned into a space.
pub open spec fn one_line(v: Seq<char>) -> Seq<char> {
    v.map_values(|c: char| if c == '\n' {
        ' '
    } else {
        c
    })
}

/// `Key: value`, or `Key:` for an empty value.
pub open spec fn render_line(k: Seq<char>, v: Seq<char>) -> Seq<char> {
    if v.len() == 0 {
        k + seq![':']
    } else {
        k + seq![':', ' '] + v
    }
}

/// The lines of a block joined with newlines.
pub open spec fn render_block(ps: Seq<(Seq<char>, Seq<char>)>) -> Seq<char> {
    join_with(ps.map_values(|p: (Seq<char>, Seq<char>)| render_line(p.0, p.1)), '\n')
}

/// An ordered trailer block being built for a commit message.
pub struct TrailerBlock {
    lines: Vec<(String, String)>,
}

impl View for TrailerBlock {
    type V = Seq<(Seq<char>, Seq<char>)>;

    closed spec fn view(&self) -> Seq<(Seq<char>, Seq<char>)> {
        pair_views(self.lines@)
    }
}

impl TrailerBlock {
    pub fn new() -> (t: TrailerBlock)
        ensures
            t@ == Seq::<(Seq<char>, Seq<char>)>::empty(),
    {
        TrailerBlock { lines: Vec::new() }
    }

    /// Adds `key: value`; trailer values are single-line, so each newline
    /// becomes a space.
    pub fn push(&mut self, key: &str, value: &str)
        ensures
            final(self)@ == old(self)@.push((key@, one_line(value@))),
    {
        let v = to_chars(value);
        let mut clean = String::new();
        let n = v.len();
        let mut i: usize = 0;
        while i < n
            invariant
                n == v@.len(),
                i <= n,
                clean@ == one_line(v@.take(i as int)),
            decreases n - i,
        {
            let c = v[i];
            push_char(
                &mut clean,
                if c == '\n' {
                    ' '
                } else {
                    c
                },
            );
            assert(one_line(v@.take(i + 1)) =~= one_line(v@.take(i as int)).push(
                if c == '\n' {
                    ' '
                } else {
                    c
                },
            ));
            i = i + 1;
        }
        assert(v@.take(n as int) =~= v@);
        let mut k = String::new();
        push_str(&mut k, key);
        let ghost before = self@;
        self.lines.push((k, clean));
        assert(self@ =~= before.push((key@, one_line(value@))));
    }

    /// The block as text: one `Key: value` line per entry, in push order.
    pub fn render(&self) -> (r: String)
        ensures
            r@ == render_block(self@),
    {
        let ghost ps = self@;
        let ghost rs = ps.map_values(|p: (Seq<char>, Seq<char>)| render_line(p.0, p.1));
        let mut r = String::new();
        let n = self.lines.len();
        let mut i: usize = 0;
        while i < n
            invariant
                n == self.lines@.len(),
                ps == self@,
                rs == ps.map_values(|p: (Seq<char>, Seq<char>)| render_line(p.0, p.1)),
                i <= n,
                r@ == join_with(rs.take(i as int), '\n'),
            decreases n - i,
        {
            let ghost prev = rs.take(i as int);
            if i > 0 {
                push_char(&mut r, '\n');
            }
            push_str(&mut r, self.lines[i].0.as_str());
            push_char(&mut r, ':');
            if !self.lines[i].1.as_str().is_empty() {
                push_char(&mut r, ' ');
                push_str(&mut r, self.lines[i].1.as_str());
            }
            proof {
                assert(ps[i as int] == (self.lines@[i as int].0@, self.lines@[i as int].1@));
                assert(rs.take(i + 1) =~= prev.push(rs[i as int]));
                if i > 0 {
                    lemma_join_push(prev, rs[i as int], '\n');
                } else {
                    assert(prev.push(rs[i as int]) =~= seq![rs[i as int]]);
                }
            }
            i = i + 1;
        }
        assert(rs.take(n as int) =~= rs);
        r
    }
}

impl Default for TrailerBlock {
    fn default() -> (t: TrailerBlock)
        ensures
            t@ == Seq::<(Seq<char>, Seq<char>)>::empty(),
    {
        TrailerBlock::new()
    }
}

// ---------------------------------------------------------------------------
// What splitting gives back of a rendered block
// ---------------------------------------------------------------------------

/// A block whose every entry reads back as itself: valid keys, single-line
/// values without surrounding whitespace.
pub open spec fn block_round_trips(ps: Seq<(Seq<char>, Seq<char>)>) -> bool {
    forall|i: int|
        0 <= i < ps.len() ==> {
            &&& valid_key((#[trigger] ps[i]).0)
            &&& !contains_char(ps[i].1, '\n')
            &&& is_trimmed(ps[i].1)
        }
}

/// A block that renders as one trailer line per entry: valid keys, and
/// values on one line (as [`TrailerBlock::push`] makes them).
pub open spec fn block_renders(ps: Seq<(Seq<char>, Seq<char>)>) -> bool {
    forall|i: int|
        0 <= i < ps.len() ==> {
            &&& valid_key((#[trigger] ps[i]).0)
            &&& !contains_char(ps[i].1, '\n')
        }
}

/// The entries with their values trimmed (as reading a trailer trims it).
pub open spec fn trim_values(ps: Seq<(Seq<char>, Seq<char>)>) -> Seq<(Seq<char>, Seq<char>)> {
    ps.map_values(|p: (Seq<char>, Seq<char>)| (p.0, trim(p.1)))
}

/// Trimmed values read back unchanged.
pub proof fn lemma_trim_values_id(ps: Seq<(Seq<char>, Seq<char>)>)
    requires
        block_round_trips(ps),
    ensures
        block_renders(ps),
        trim_values(ps) == ps,
{
    assert forall|i: int| 0 <= i < ps.len() implies #[trigger] trim_values(ps)[i] == ps[i] by {
        assert(is_trimmed(ps[i].1));
        crate::text::lemma_trim_of_trimmed(ps[i].1);
    }
    assert(trim_values(ps) =~= ps);
}

/// A body that the message layout keeps exactly: empty, or with neither its
/// first nor its last line blank.
pub open spec fn body_round_trips(body: Seq<char>) -> bool {
    let bl = split_on(body, '\n');
    body.len() == 0 || (!is_blank(bl[0]) && !is_blank(bl.last()))
}

pub open spec fn rendered_lines(ps: Seq<(Seq<char>, Seq<char>)>) -> Seq<Seq<char>> {
    ps.map_values(|p: (Seq<char>, Seq<char>)| render_line(p.0, p.1))
}

proof fn lemma_valid_key_no_colon(k: Seq<char>)
    requires
        valid_key(k),
    ensures
        forall|i: int| 0 <= i < k.len() ==> k[i] != ':' && k[i] != '\n' && !is_ws(k[i]),
{
    assert forall|i: int| 0 <= i < k.len() implies k[i] != ':' && k[i] != '\n' && !is_ws(
        k[i],
    ) by {
        assert(is_ascii_alnum(k[i]) || k[i] == '-');
    }
}

/// A rendered line reads back as its key and its value trimmed.
pub proof fn lemma_parse_render_line(k: Seq<char>, v: Seq<char>)
    requires
        valid_key(k),
    ensures
        spec_parse_trailer(render_line(k, v)) == Some((k, trim(v))),
        !contains_char(v, '\n') ==> !contains_char(render_line(k, v), '\n'),
        !is_blank(render_line(k, v)),
{
    let l = render_line(k, v);
    lemma_valid_key_no_colon(k);
    lemma_idx_of_unique(l, ':', k.len() as int);
    assert(l.subrange(0, k.len() as int) =~= k);
    let rest = l.subrange(k.len() as int + 1, l.len() as int);
    if v.len() == 0 {
        assert(rest =~= Seq::<char>::empty());
        lemma_trim_ws_prefix(Seq::<char>::empty(), v);
        assert(Seq::<char>::empty() + v =~= rest);
    } else {
        assert(rest =~= seq![' '] + v);
        assert(is_ws(' '));
        assert(rest.drop_first() =~= v);
        assert(crate::text::trim_left(rest) == crate::text::trim_left(v));
    }
    if !contains_char(v, '\n') && contains_char(l, '\n') {
        let i = choose|i: int| 0 <= i < l.len() && l[i] == '\n';
        if i < k.len() {
        } else if v.len() > 0 && i >= k.len() + 2 {
            assert(v[i - k.len() - 2] == '\n');
        }
    }
    lemma_blank_iff_all_ws(l);
    assert(!is_ws(l[0]));
}

proof fn lemma_lines_map_rendered(ps: Seq<(Seq<char>, Seq<char>)>)
    requires
        block_renders(ps),
    ensures
        lines_map(rendered_lines(ps)) == pairs_map(trim_values(ps)),
    decreases ps.len(),
{
    if ps.len() > 0 {
        let q = ps.drop_last();
        assert forall|i: int| 0 <= i < q.len() implies {
            &&& valid_key((#[trigger] q[i]).0)
            &&& !contains_char(q[i].1, '\n')
        } by {
            assert(q[i] == ps[i]);
        }
        lemma_lines_map_rendered(q);
        assert(rendered_lines(ps).drop_last() =~= rendered_lines(q));
        assert(trim_values(ps).drop_last() =~= trim_values(q));
        let last = ps[ps.len() - 1];
        assert(valid_key(last.0));
        lemma_parse_render_line(last.0, last.1);
    }
}

proof fn lemma_rendered_lines_facts(ps: Seq<(Seq<char>, Seq<char>)>)
    requires
        block_renders(ps),
    ensures
        forall|i: int|
            0 <= i < ps.len() ==> {
                &&& spec_parse_trailer(#[trigger] rendered_lines(ps)[i]) == Some((ps[i].0, trim(ps[i].1)))
                &&& !contains_char(rendered_lines(ps)[i], '\n')
                &&& !is_blank(rendered_lines(ps)[i])
            },
{
    assert forall|i: int| 0 <= i < ps.len() implies {
        &&& spec_parse_trailer(#[trigger] rendered_lines(ps)[i]) == Some((ps[i].0, trim(ps[i].1)))
        &&& !contains_char(rendered_lines(ps)[i], '\n')
        &&& !is_blank(rendered_lines(ps)[i])
    } by {
        assert(valid_key(ps[i].0));
        lemma_parse_render_line(ps[i].0, ps[i].1);
    }
}

/// The lines of a rendered block are the rendered entries.
pub proof fn lemma_split_rendered(ps: Seq<(Seq<char>, Seq<char>)>)
    requires
        ps.len() >= 1,
        block_renders(ps),
    ensures
        split_on(render_block(ps), '\n') == rendered_lines(ps),
{
    lemma_rendered_lines_facts(ps);
    let rs = rendered_lines(ps);
    assert forall|i: int| 0 <= i < rs.len() implies !contains_char(#[trigger] rs[i], '\n') by {}
    lemma_split_join(rs, '\n');
}

proof fn lemma_trailer_start_over(ls: Seq<Seq<char>>, lo: int, t: int)
    requires
        1 <= lo <= t <= ls.len(),
        lo > 1 ==> spec_parse_trailer(ls[lo - 1]) is None,
        forall|i: int| lo <= i < t ==> spec_parse_trailer(#[trigger] ls[i]) is Some,
    ensures
        trailer_start(ls, t) == lo,
    decreases t,
{
    if t > lo {
        lemma_trailer_start_over(ls, lo, t - 1);
    }
}

proof fn lemma_front_blank_over(ls: Seq<Seq<char>>, i: int, j: int)
    requires
        0 <= i <= j <= ls.len(),
        forall|k: int| i <= k < j ==> is_blank(#[trigger] ls[k]),
        j < ls.len() ==> !is_blank(ls[j]),
    ensures
        front_blank(ls, i) == j,
    decreases j - i,
{
    if i < j {
        lemma_front_blank_over(ls, i + 1, j);
    }
}

proof fn lemma_back_blank_over(ls: Seq<Seq<char>>, lo: int, i: int, j: int)
    requires
        0 <= lo <= i <= j <= ls.len(),
        forall|k: int| i <= k < j ==> is_blank(#[trigger] ls[k]),
        lo < i ==> !is_blank(ls[i - 1]),
    ensures
        back_blank(ls, lo, j) == i,
    decreases j - i,
{
    if i < j {
        lemma_back_blank_over(ls, lo, i, j - 1);
    }
}

proof fn lemma_empty_blank()
    ensures
        is_blank(Seq::<char>::empty()),
        spec_parse_trailer(Seq::<char>::empty()) is None,
{
    lemma_blank_iff_all_ws(Seq::<char>::empty());
}

/// Splitting `subject`, a blank line, an optional body and a blank line, and
/// a block of trailers: the parts come back as they went in. `tail` is an
/// optional final newline.
pub proof fn lemma_split_composed(
    subj: Seq<char>,
    body: Option<Seq<char>>,
    ps: Seq<(Seq<char>, Seq<char>)>,
    tail: bool,
)
    requires
        !contains_char(subj, '\n'),
        ps.len() >= 1,
        block_renders(ps),
        body matches Some(b) ==> body_round_trips(b),
    ensures
        ({
            let mid = match body {
                Some(b) => subj + seq!['\n', '\n'] + b + seq!['\n', '\n'],
                None => subj + seq!['\n', '\n'],
            };
            let m = if tail {
                mid + render_block(ps) + seq!['\n']
            } else {
                mid + render_block(ps)
            };
            spec_split_message(m) == (trim(subj), match body {
                Some(b) => b,
                None => Seq::<char>::empty(),
            }, pairs_map(trim_values(ps)))
        }),
{
    let nl = '\n';
    let e = Seq::<char>::empty();
    let r = render_block(ps);
    let rs = rendered_lines(ps);
    lemma_split_rendered(ps);
    lemma_rendered_lines_facts(ps);
    lemma_lines_map_rendered(ps);
    lemma_split_free(subj);
    lemma_empty_blank();
    // The lines before the block.
    let pre: Seq<Seq<char>> = match body {
        Some(b) => seq![subj, e] + split_on(b, nl) + seq![e],
        None => seq![subj, e],
    };
    let mid = match body {
        Some(b) => subj + seq!['\n', '\n'] + b + seq!['\n', '\n'],
        None => subj + seq!['\n', '\n'],
    };
    // split(mid + r) == pre + rs
    match body {
        Some(b) => {
            lemma_split_append(e, r, nl);
            assert(e + seq![nl] + r =~= seq![nl] + r);
            lemma_split_append(b, seq![nl] + r, nl);
            lemma_split_append(e, b + seq![nl] + (seq![nl] + r), nl);
            lemma_split_append(subj, e + seq![nl] + (b + seq![nl] + (seq![nl] + r)), nl);
            assert(mid + r =~= subj + seq![nl] + (e + seq![nl] + (b + seq![nl] + (seq![nl] + r))));
            assert(split_on(e, nl) =~= seq![e]);
            assert(split_on(mid + r, nl) =~= pre + rs);
        },
        None => {
            lemma_split_append(e, r, nl);
            lemma_split_append(subj, e + seq![nl] + r, nl);
            assert(mid + r =~= subj + seq![nl] + (e + seq![nl] + r));
            assert(split_on(e, nl) =~= seq![e]);
            assert(split_on(mid + r, nl) =~= pre + rs);
        },
    }
    let ls0 = pre + rs;
    let ls = if tail {
        ls0 + seq![e]
    } else {
        ls0
    };
    let m = if tail {
        mid + r + seq![nl]
    } else {
        mid + r
    };
    if tail {
        lemma_split_append(mid + r, e, nl);
        assert(mid + r + seq![nl] =~= (mid + r) + seq![nl] + e);
        assert(split_on(e, nl) =~= seq![e]);
    }
    assert(split_on(m, nl) == ls);
    let p = pre.len();
    let end = ls0.len() as int;
    // The content ends with the last trailer line.
    assert(ls[end - 1] == rs[ps.len() - 1]);
    assert(!is_blank(rs[ps.len() - 1]));
    assert(!is_blank(ls[end - 1]));
    assert(strip_end(ls, end) == end);
    assert(strip_end(ls, ls.len() as int) == end) by {
        if tail {
            assert(is_blank(ls[ls.len() - 1]));
            assert(strip_end(ls, ls.len() as int) == strip_end(ls, end));
        }
    }
    assert(ls[p - 1] == e);
    assert forall|i: int| p <= i < end implies spec_parse_trailer(#[trigger] ls[i]) is Some by {
        assert(ls[i] == rs[i - p]);
    }
    lemma_trailer_start_over(ls, p as int, end);
    assert(layout(ls) == (end, p as int, true));
    assert(ls.subrange(p as int, end) =~= rs);
    let bl = ls.subrange(1, p as int);
    assert(body_region(ls) == bl);
    assert(ls[0] == subj);
    match body {
        Some(b) => {
            let bls = split_on(b, nl);
            lemma_split_nonempty(b, nl);
            assert(bl =~= seq![e] + bls + seq![e]);
            if b.len() == 0 {
                assert(bls =~= seq![e]);
                assert forall|k: int| 0 <= k < bl.len() implies is_blank(#[trigger] bl[k]) by {}
                lemma_front_blank_over(bl, 0, bl.len() as int);
                lemma_back_blank_over(bl, bl.len() as int, bl.len() as int, bl.len() as int);
                assert(strip_blank_lines(bl) =~= Seq::<Seq<char>>::empty());
            } else {
                lemma_front_blank_over(bl, 0, 1);
                lemma_back_blank_over(bl, 1, bl.len() - 1, bl.len() as int);
                assert(strip_blank_lines(bl) =~= bls);
                lemma_join_split(b, nl);
            }
        },
        None => {
            assert(bl =~= seq![e]);
            lemma_front_blank_over(bl, 0, 1);
            lemma_back_blank_over(bl, 1, 1, 1);
            assert(strip_blank_lines(bl) =~= Seq::<Seq<char>>::empty());
        },
    }
}

proof fn lemma_split_free(s: Seq<char>)
    requires
        !contains_char(s, '\n'),
    ensures
        split_on(s, '\n') == seq![s],
{
    crate::text::lemma_split_free(s, '\n');
}

/// Law: a rendered trailer block, put after a subject line and a blank line,
/// is read back by `split_message` as the block's own key/value pairs, each
/// value trimmed (a later pair winning for a repeated key), whether or not
/// the message ends with a newline. This holds for every block of valid keys
/// whose values are on one line, as [`TrailerBlock::push`] makes them.
pub proof fn law_render_split_round_trip(
    subject: Seq<char>,
    block: Seq<(Seq<char>, Seq<char>)>,
    trailing_newline: bool,
)
    requires
        !contains_char(subject, '\n'),
        block.len() >= 1,
        block_renders(block),
    ensures
        ({
            let m = subject + seq!['\n', '\n'] + render_block(block);
            let m = if trailing_newline {
                m + seq!['\n']
            } else {
                m
            };
            spec_split_message(m).2 == pairs_map(trim_values(block)) && spec_split_message(m).1
                == Seq::<char>::empty()
        }),
{
    lemma_split_composed(subject, None, block, trailing_newline);
}


proof fn lemma_trailer_start_prefix(ls: Seq<Seq<char>>, ls2: Seq<Seq<char>>, t: int)
    requires
        ls.len() <= ls2.len(),
        forall|i: int| 0 <= i < ls.len() ==> ls2[i] == ls[i],
        t <= ls.len(),
    ensures
        trailer_start(ls2, t) == trailer_start(ls, t),
    decreases t,
{
    if 1 < t && t <= ls.len() {
        assert(ls2[t - 1] == ls[t - 1]);
        lemma_trailer_start_prefix(ls, ls2, t - 1);
    }
}

proof fn lemma_strip_end_facts(ls: Seq<Seq<char>>, e: int)
    requires
        1 <= e <= ls.len(),
    ensures
        1 <= strip_end(ls, e) <= e,
        forall|k: int| strip_end(ls, e) <= k < e ==> is_blank(#[trigger] ls[k]),
        strip_end(ls, e) > 1 ==> !is_blank(ls[strip_end(ls, e) - 1]),
    decreases e,
{
    if 1 < e && is_blank(ls[e - 1]) {
        lemma_strip_end_facts(ls, e - 1);
    }
}

proof fn lemma_strip_end_over(ls: Seq<Seq<char>>, lo: int, e: int)
    requires
        2 <= lo <= e <= ls.len(),
        forall|k: int| lo <= k < e ==> is_blank(#[trigger] ls[k]),
        !is_blank(ls[lo - 1]),
    ensures
        strip_end(ls, e) == lo,
    decreases e,
{
    if e > lo {
        lemma_strip_end_over(ls, lo, e - 1);
    }
}

/// The message with one more line put right after its last non-blank line
/// (so before any trailing blank lines).
pub open spec fn with_line(m: Seq<char>, line: Seq<char>) -> Seq<char> {
    let ls = split_on(m, '\n');
    let e = strip_end(ls, ls.len() as int);
    join_with(ls.take(e).push(line) + ls.skip(e), '\n')
}

/// A message whose last paragraph is a trailer block keeps its subject,
/// body and trailers when one more trailer line is added at the end of that
/// block (before any trailing newlines); the new line's key and trimmed
/// value join the trailers.
pub proof fn lemma_split_with_trailer(m: Seq<char>, k: Seq<char>, v: Seq<char>)
    requires
        spec_split_message(m).2 != Map::<Seq<char>, Seq<char>>::empty(),
        valid_key(k),
        !contains_char(v, '\n'),
    ensures
        ({
            let m2 = with_line(m, render_line(k, v));
            &&& spec_split_message(m2).0 == spec_split_message(m).0
            &&& spec_split_message(m2).1 == spec_split_message(m).1
            &&& spec_split_message(m2).2 == spec_split_message(m).2.insert(k, trim(v))
        }),
{
    let nl = '\n';
    let line = render_line(k, v);
    lemma_parse_render_line(k, v);
    lemma_split_nonempty(m, nl);
    lemma_split_pieces(m, nl);
    let ls = split_on(m, nl);
    let (end, tb, block) = layout(ls);
    assert(block) by {
        if !block {
            assert(spec_split_message(m).2 == Map::<Seq<char>, Seq<char>>::empty());
        }
    }
    lemma_strip_end_facts(ls, ls.len() as int);
    let e = end;
    assert(e >= 2);
    let parts = ls.take(e).push(line) + ls.skip(e);
    assert forall|i: int| 0 <= i < parts.len() implies !contains_char(#[trigger] parts[i], nl) by {
        if i < e {
            assert(parts[i] == ls[i]);
        } else if i > e {
            assert(parts[i] == ls[i - 1]);
        }
    }
    lemma_split_join(parts, nl);
    let ls2 = parts;
    assert(split_on(with_line(m, line), nl) == ls2);
    assert(forall|i: int| 0 <= i < e ==> ls2[i] == ls[i]);
    assert(ls2[e] == line);
    assert(forall|i: int| e < i < ls2.len() ==> ls2[i] == ls[i - 1]);
    let end2 = e + 1;
    assert forall|q: int| end2 <= q < ls2.len() implies is_blank(#[trigger] ls2[q]) by {
        assert(ls2[q] == ls[q - 1]);
    }
    lemma_strip_end_over(ls2, end2, ls2.len() as int);
    assert(spec_parse_trailer(ls2[end2 - 1]) is Some);
    assert(trailer_start(ls2, end2) == trailer_start(ls2, e));
    let pre = ls.take(e);
    lemma_trailer_start_prefix(pre, ls2, e);
    lemma_trailer_start_prefix(pre, ls, e);
    assert(layout(ls2) == (end2, tb, true)) by {
        assert(ls2[tb - 1] == ls[tb - 1]);
    }
    assert(ls2.subrange(tb, end2) =~= ls.subrange(tb, end).push(line));
    assert(ls2.subrange(tb, end2).drop_last() =~= ls.subrange(tb, end));
    assert(body_region(ls2) =~= body_region(ls));
    assert(ls2[0] == ls[0]);
}


/// The entries of a block as [`TrailerBlock::push`] records them: each
/// value put on one line.
pub open spec fn pushed(block: Seq<(Seq<char>, Seq<char>)>) -> Seq<(Seq<char>, Seq<char>)> {
    block.map_values(|p: (Seq<char>, Seq<char>)| (p.0, one_line(p.1)))
}

proof fn lemma_one_line_no_newline(v: Seq<char>)
    ensures
        !contains_char(one_line(v), '\n'),
{
    assert forall|i: int| 0 <= i < one_line(v).len() implies one_line(v)[i] != '\n' by {}
}

/// Law: a commit message made of a subject line, a blank line, an optional
/// body followed by a blank line, and a trailer block built by pushing the
/// pairs `block` (valid keys) and rendered, with or without a final newline,
/// is split back into the subject trimmed, the body, and each pushed key
/// with its value on one line and trimmed (a later pair winning for a
/// repeated key).
pub proof fn law_message_split_round_trip(
    subject: Seq<char>,
    body: Option<Seq<char>>,
    block: Seq<(Seq<char>, Seq<char>)>,
    trailing_newline: bool,
)
    requires
        !contains_char(subject, '\n'),
        block.len() >= 1,
        forall|i: int| 0 <= i < block.len() ==> valid_key(#[trigger] block[i].0),
        body matches Some(b) ==> body_round_trips(b),
    ensures
        ({
            let mid = match body {
                Some(b) => subject + seq!['\n', '\n'] + b + seq!['\n', '\n'],
                None => subject + seq!['\n', '\n'],
            };
            let m = if trailing_newline {
                mid + render_block(pushed(block)) + seq!['\n']
            } else {
                mid + render_block(pushed(block))
            };
            spec_split_message(m) == (trim(subject), match body {
                Some(b) => b,
                None => Seq::<char>::empty(),
            }, pairs_map(trim_values(pushed(block))))
        }),
{
    let ps = pushed(block);
    assert forall|i: int| 0 <= i < ps.len() implies {
        &&& valid_key((#[trigger] ps[i]).0)
        &&& !contains_char(ps[i].1, '\n')
    } by {
        assert(ps[i] == (block[i].0, one_line(block[i].1)));
        assert(valid_key(block[i].0));
        lemma_one_line_no_newline(block[i].1);
    }
    lemma_split_composed(subject, body, ps, trailing_newline);
}

} // verus!
