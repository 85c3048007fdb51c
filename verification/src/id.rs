//! Identity: truth ids, op ids, actor slugs, and drift-allowed display numbers.
//!
//! Truth identity is a UUIDv7 (time-sortable, never collides): the issue ref is
//! `refs/issues/<uuid>` and a short prefix is a permanent handle. Display
//! identity is a number computed on read, shown as a bare `#N` while that
//! number is unambiguous and as the actor-qualified `alice-#N` once two actors
//! share a number. A same-actor clash (two offline clones) resolves
//! deterministically by UUIDv7 order.
use crate::model::{Issue, IssueView};
use crate::text::{
    all_digits, dec, is_ascii_alnum, is_ascii_digit, is_ascii_hex, is_ascii_lower, is_prefix,
    lower_char, lower_seq, parse_unsigned, seq_lt, trim, is_ws,
};
use vstd::prelude::*;

verus! {

// ---------------------------------------------------------------------------
// Truth ids
// ---------------------------------------------------------------------------

/// A lowercase hexadecimal digit.
pub open spec fn is_lower_hex(c: char) -> bool {
    is_ascii_digit(c) || ('a' <= c && c <= 'f')
}

/// A new UUIDv7 as 32 lowercase hex characters, no dashes (used for issue
/// ids and op ids).
///
/// Trusted: `uuid::Uuid::now_v7().simple().to_string()`. The `uuid` crate
/// writes the simple form as 32 lowercase hex digits; which digits come out
/// depends on the clock and a random source, so nothing more is stated.
#[verifier::external_body]
pub fn new_uuid() -> (r: String)
    ensures
        r@.len() == 32,
        forall|i: int| 0 <= i < r@.len() ==> is_lower_hex(#[trigger] r@[i]),
{
    uuid::Uuid::now_v7().simple().to_string()
}

// ---------------------------------------------------------------------------
// Actor slugs
// ---------------------------------------------------------------------------

/// One character of the slug scan: keep ASCII letters and digits (lowercased),
/// turn each run of anything else after some kept character into one hyphen.
pub open spec fn slug_step(st: (Seq<char>, bool), c: char) -> (Seq<char>, bool) {
    if is_ascii_alnum(c) {
        (st.0.push(lower_char(c)), false)
    } else if !st.1 && st.0.len() > 0 {
        (st.0.push('-'), true)
    } else {
        st
    }
}

pub open spec fn slug_scan(s: Seq<char>) -> (Seq<char>, bool)
    decreases s.len(),
{
    if s.len() == 0 {
        (Seq::empty(), false)
    } else {
        slug_step(slug_scan(s.drop_last()), s.last())
    }
}

pub open spec fn drop_dashes(s: Seq<char>) -> Seq<char>
    decreases s.len(),
{
    if s.len() > 0 && s.last() == '-' {
        drop_dashes(s.drop_last())
    } else {
        s
    }
}

/// The actor slug of a raw identity: trimmed, lowercase ASCII letters and
/// digits with single hyphens between runs, `anon` when nothing is left.
pub open spec fn spec_actor_slug(raw: Seq<char>) -> Seq<char> {
    let t = drop_dashes(slug_scan(trim(raw)).0);
    if t.len() == 0 {
        "anon"@
    } else {
        t
    }
}

/// The shape of every actor slug: non-empty lowercase ASCII letters, digits
/// and hyphens, with no hyphen at either end and never two in a row.
pub open spec fn is_slug(s: Seq<char>) -> bool {
    &&& s.len() > 0
    &&& forall|i: int| 0 <= i < s.len() ==> slug_char(#[trigger] s[i])
    &&& s[0] != '-'
    &&& s.last() != '-'
    &&& forall|i: int| 0 <= i < s.len() - 1 ==> !(#[trigger] s[i] == '-' && s[i + 1] == '-')
}

pub open spec fn slug_char(c: char) -> bool {
    is_ascii_lower(c) || is_ascii_digit(c) || c == '-'
}

/// Sanitize a raw identity (git user.name or the local part of user.email)
/// into a display-safe actor slug: lowercase, ASCII alphanumerics and hyphens.
pub fn actor_slug(raw: &str) -> (r: String)
    ensures
        r@ == spec_actor_slug(raw@),
{
    let v = crate::text::to_chars(raw);
    let (a, b) = crate::text::trim_range(v.as_slice());
    let mut slug: Vec<char> = Vec::new();
    let mut last_dash = false;
    let mut i = a;
    while i < b
        invariant
            a <= i <= b <= v@.len(),
            trim(raw@) == v@.subrange(a as int, b as int),
            v@ == raw@,
            (slug@, last_dash) == slug_scan(v@.subrange(a as int, i as int)),
        decreases b - i,
    {
        let c = v[i];
        proof {
            assert(v@.subrange(a as int, i + 1).drop_last() =~= v@.subrange(a as int, i as int));
        }
        if crate::text::is_alnum(c) {
            slug.push(crate::text::to_lower(c));
            last_dash = false;
        } else if !last_dash && slug.len() > 0 {
            slug.push('-');
            last_dash = true;
        }
        i = i + 1;
    }
    while slug.len() > 0 && slug[slug.len() - 1] == '-'
        invariant
            drop_dashes(slug@) == drop_dashes(slug_scan(trim(raw@)).0),
        decreases slug.len(),
    {
        slug.pop();
    }
    if slug.len() == 0 {
        "anon".to_owned()
    } else {
        crate::text::from_chars(slug.as_slice())
    }
}

proof fn lemma_lower_alnum(c: char)
    requires
        is_ascii_alnum(c),
    ensures
        slug_char(lower_char(c)),
        lower_char(c) != '-',
{
    if crate::text::is_ascii_upper(c) {
        let u = c as u32;
        assert(65 <= u <= 90);
        assert(97 <= (u + 32) <= 122);
        assert(((u + 32) as char) as u32 == u + 32);
    }
}

proof fn lemma_scan_shape(s: Seq<char>)
    ensures
        ({
            let (t, d) = slug_scan(s);
            &&& forall|i: int| 0 <= i < t.len() ==> slug_char(#[trigger] t[i])
            &&& t.len() > 0 ==> t[0] != '-'
            &&& forall|i: int| 0 <= i < t.len() - 1 ==> !(#[trigger] t[i] == '-' && t[i + 1] == '-')
            &&& d == (t.len() > 0 && t.last() == '-')
        }),
    decreases s.len(),
{
    if s.len() > 0 {
        lemma_scan_shape(s.drop_last());
        let (t0, d0) = slug_scan(s.drop_last());
        let c = s.last();
        let (t, d) = slug_scan(s);
        if is_ascii_alnum(c) {
            lemma_lower_alnum(c);
            assert forall|i: int| 0 <= i < t.len() - 1 implies !(#[trigger] t[i] == '-' && t[i + 1]
                == '-') by {
                if i < t0.len() - 1 {
                    assert(t[i] == t0[i] && t[i + 1] == t0[i + 1]);
                }
            }
        } else if !d0 && t0.len() > 0 {
            assert forall|i: int| 0 <= i < t.len() - 1 implies !(#[trigger] t[i] == '-' && t[i + 1]
                == '-') by {
                if i < t0.len() - 1 {
                    assert(t[i] == t0[i] && t[i + 1] == t0[i + 1]);
                }
            }
        }
    }
}

proof fn lemma_drop_dashes(s: Seq<char>)
    ensures
        drop_dashes(s).len() <= s.len(),
        drop_dashes(s) == s.take(drop_dashes(s).len() as int),
        drop_dashes(s).len() > 0 ==> drop_dashes(s).last() != '-',
    decreases s.len(),
{
    if s.len() > 0 && s.last() == '-' {
        lemma_drop_dashes(s.drop_last());
        let t = drop_dashes(s.drop_last());
        assert(s.drop_last().take(t.len() as int) =~= s.take(t.len() as int));
    } else {
        assert(s.take(s.len() as int) =~= s);
    }
}

/// Law: every actor slug is non-empty lowercase ASCII letters, digits and
/// hyphens, with no hyphen at either end and never two hyphens in a row.
pub proof fn law_actor_slug_shape(raw: Seq<char>)
    ensures
        is_slug(spec_actor_slug(raw)),
{
    let (t, d) = slug_scan(trim(raw));
    lemma_scan_shape(trim(raw));
    lemma_drop_dashes(t);
    let u = drop_dashes(t);
    if u.len() == 0 {
        reveal_strlit("anon");
    } else {
        assert forall|i: int| 0 <= i < u.len() implies slug_char(#[trigger] u[i]) by {
            assert(u[i] == t[i]);
        }
        assert forall|i: int| 0 <= i < u.len() - 1 implies !(#[trigger] u[i] == '-' && u[i + 1]
            == '-') by {
            assert(u[i] == t[i] && u[i + 1] == t[i + 1]);
        }
        assert(u[0] == t[0]);
    }
}

proof fn lemma_scan_slug(s: Seq<char>, k: int)
    requires
        is_slug(s),
        0 <= k <= s.len(),
    ensures
        slug_scan(s.take(k)) == (s.take(k), k > 0 && s[k - 1] == '-'),
    decreases k,
{
    if k > 0 {
        lemma_scan_slug(s, k - 1);
        assert(s.take(k).drop_last() =~= s.take(k - 1));
        let c = s[k - 1];
        assert(slug_char(c));
        if c != '-' {
            assert(lower_char(c) == c);
        } else {
            assert(k - 1 > 0);
            assert(!(s[k - 2] == '-' && s[k - 1] == '-'));
        }
        assert(s.take(k - 1).push(c) =~= s.take(k));
    }
}

/// Law: a slug is its own actor slug, so sanitizing twice changes nothing.
pub proof fn law_actor_slug_fixed_point(s: Seq<char>)
    requires
        is_slug(s),
    ensures
        spec_actor_slug(s) == s,
{
    assert(!is_ws(s[0]) && !is_ws(s.last())) by {
        assert(slug_char(s[0]));
        assert(slug_char(s[s.len() - 1]));
    }
    crate::text::lemma_trim_of_trimmed(s);
    lemma_scan_slug(s, s.len() as int);
    assert(s.take(s.len() as int) =~= s);
}

/// Law: sanitizing an actor slug again gives the same slug.
pub proof fn law_actor_slug_idempotent(raw: Seq<char>)
    ensures
        spec_actor_slug(spec_actor_slug(raw)) == spec_actor_slug(raw),
{
    law_actor_slug_shape(raw);
    law_actor_slug_fixed_point(spec_actor_slug(raw));
}

/// The ASCII letters and digits of a text, lowercased, in order.
pub open spec fn alnum_lower(s: Seq<char>) -> Seq<char>
    decreases s.len(),
{
    if s.len() == 0 {
        Seq::empty()
    } else if is_ascii_alnum(s.last()) {
        alnum_lower(s.drop_last()).push(lower_char(s.last()))
    } else {
        alnum_lower(s.drop_last())
    }
}

/// A text without its hyphens.
pub open spec fn no_hyphens(s: Seq<char>) -> Seq<char>
    decreases s.len(),
{
    if s.len() == 0 {
        Seq::empty()
    } else if s.last() == '-' {
        no_hyphens(s.drop_last())
    } else {
        no_hyphens(s.drop_last()).push(s.last())
    }
}

proof fn lemma_alnum_concat(x: Seq<char>, y: Seq<char>)
    ensures
        alnum_lower(x + y) == alnum_lower(x) + alnum_lower(y),
    decreases y.len(),
{
    if y.len() == 0 {
        assert(x + y =~= x);
        assert(alnum_lower(x) + alnum_lower(y) =~= alnum_lower(x));
    } else {
        assert((x + y).drop_last() =~= x + y.drop_last());
        assert((x + y).last() == y.last());
        lemma_alnum_concat(x, y.drop_last());
        assert(alnum_lower(x) + alnum_lower(y.drop_last()).push(lower_char(y.last())) =~= (
        alnum_lower(x) + alnum_lower(y.drop_last())).push(lower_char(y.last())));
    }
}

proof fn lemma_alnum_of_ws(x: Seq<char>)
    requires
        forall|i: int| 0 <= i < x.len() ==> is_ws(#[trigger] x[i]),
    ensures
        alnum_lower(x) == Seq::<char>::empty(),
    decreases x.len(),
{
    if x.len() > 0 {
        assert(is_ws(x[x.len() - 1]));
        assert(!is_ascii_alnum(x.last()));
        lemma_alnum_of_ws(x.drop_last());
    }
}

proof fn lemma_alnum_of_trim(raw: Seq<char>)
    ensures
        alnum_lower(trim(raw)) == alnum_lower(raw),
{
    crate::text::lemma_trim_is_subrange(raw);
    let (a, b) = crate::text::trim_bounds(raw);
    crate::text::lemma_skip_ws_stops(raw, 0);
    crate::text::lemma_back_ws_stops(raw, a, raw.len() as int);
    let x = raw.subrange(0, a);
    let m = raw.subrange(a, b);
    let y = raw.subrange(b, raw.len() as int);
    assert(raw =~= x + m + y);
    assert forall|i: int| 0 <= i < x.len() implies is_ws(#[trigger] x[i]) by {
        assert(x[i] == raw[i]);
    }
    assert forall|i: int| 0 <= i < y.len() implies is_ws(#[trigger] y[i]) by {
        assert(y[i] == raw[b + i]);
    }
    lemma_alnum_of_ws(x);
    lemma_alnum_of_ws(y);
    lemma_alnum_concat(x + m, y);
    lemma_alnum_concat(x, m);
    assert(Seq::<char>::empty() + alnum_lower(m) =~= alnum_lower(m));
    assert(alnum_lower(m) + Seq::<char>::empty() =~= alnum_lower(m));
}

proof fn lemma_scan_letters(s: Seq<char>)
    ensures
        no_hyphens(slug_scan(s).0) == alnum_lower(s),
    decreases s.len(),
{
    if s.len() > 0 {
        lemma_scan_letters(s.drop_last());
        let st = slug_scan(s.drop_last());
        let c = s.last();
        if is_ascii_alnum(c) {
            assert(lower_char(c) != '-');
            assert(st.0.push(lower_char(c)).drop_last() =~= st.0);
        } else if !st.1 && st.0.len() > 0 {
            assert(st.0.push('-').drop_last() =~= st.0);
        }
    }
}

proof fn lemma_drop_dashes_letters(t: Seq<char>)
    ensures
        no_hyphens(drop_dashes(t)) == no_hyphens(t),
    decreases t.len(),
{
    if t.len() > 0 && t.last() == '-' {
        lemma_drop_dashes_letters(t.drop_last());
    }
}

/// Law: an actor slug keeps exactly the ASCII letters and digits of the raw
/// identity, lowercased and in order: without its hyphens it is those
/// characters, and it is `anon` when the identity has none.
pub proof fn law_actor_slug_letters(raw: Seq<char>)
    ensures
        alnum_lower(raw).len() > 0 ==> no_hyphens(spec_actor_slug(raw)) == alnum_lower(raw),
        alnum_lower(raw).len() == 0 ==> spec_actor_slug(raw) == "anon"@,
{
    lemma_alnum_of_trim(raw);
    lemma_scan_letters(trim(raw));
    let t = slug_scan(trim(raw)).0;
    lemma_drop_dashes_letters(t);
    let u = drop_dashes(t);
    if u.len() == 0 {
        assert(no_hyphens(u) =~= Seq::<char>::empty());
    } else {
        lemma_drop_dashes(t);
        assert(u.last() != '-');
        assert(no_hyphens(u).len() > 0);
    }
}

// ---------------------------------------------------------------------------
// Short prefixes
// ---------------------------------------------------------------------------

/// The first eight characters (or the whole id when it is shorter).
pub open spec fn short_of(u: Seq<char>) -> Seq<char> {
    if u.len() <= 8 {
        u
    } else {
        u.take(8)
    }
}

/// The conventional short handle: the first 8 hex characters, or the whole id.
pub fn short_prefix(uuid: &str) -> (r: String)
    ensures
        r@ == short_of(uuid@),
{
    let v = crate::text::to_chars(uuid);
    if v.len() <= 8 {
        crate::text::from_chars(v.as_slice())
    } else {
        let r = crate::text::range_to_string(v.as_slice(), 0, 8);
        assert(v@.subrange(0, 8) =~= v@.take(8));
        r
    }
}

// ---------------------------------------------------------------------------
// Sorting strings
// ---------------------------------------------------------------------------

/// Where a stable insertion puts `x`: before the first element greater than it.
pub open spec fn ins_pos(s: Seq<Seq<char>>, x: Seq<char>) -> int
    decreases s.len(),
{
    if s.len() == 0 {
        0
    } else if seq_lt(x, s[0]) {
        0
    } else {
        1 + ins_pos(s.drop_first(), x)
    }
}

/// The strings in ascending order (a stable insertion sort).
pub open spec fn sort_strs(s: Seq<Seq<char>>) -> Seq<Seq<char>>
    decreases s.len(),
{
    if s.len() == 0 {
        s
    } else {
        let r = sort_strs(s.drop_last());
        r.insert(ins_pos(r, s.last()), s.last())
    }
}

proof fn lemma_ins_pos(s: Seq<Seq<char>>, x: Seq<char>, i: int)
    requires
        0 <= i <= s.len(),
        forall|j: int| 0 <= j < i ==> !seq_lt(x, #[trigger] s[j]),
        i == s.len() || seq_lt(x, s[i]),
    ensures
        ins_pos(s, x) == i,
    decreases i,
{
    if i > 0 {
        assert(!seq_lt(x, s[0]));
        assert forall|j: int| 0 <= j < i - 1 implies !seq_lt(x, #[trigger] s.drop_first()[j]) by {
            assert(s.drop_first()[j] == s[j + 1]);
        }
        if i < s.len() {
            assert(s.drop_first()[i - 1] == s[i]);
        }
        lemma_ins_pos(s.drop_first(), x, i - 1);
    }
}

pub proof fn lemma_sort_len(s: Seq<Seq<char>>)
    ensures
        sort_strs(s).len() == s.len(),
    decreases s.len(),
{
    if s.len() > 0 {
        lemma_sort_len(s.drop_last());
        lemma_ins_pos_bounds(sort_strs(s.drop_last()), s.last());
    }
}

proof fn lemma_ins_pos_bounds(s: Seq<Seq<char>>, x: Seq<char>)
    ensures
        0 <= ins_pos(s, x) <= s.len(),
    decreases s.len(),
{
    if s.len() > 0 {
        lemma_ins_pos_bounds(s.drop_first(), x);
    }
}

/// The strings sorted ascending (by code point, as `str`'s `Ord` orders).
pub fn sorted_strings(v: Vec<String>) -> (r: Vec<String>)
    ensures
        r.deep_view() == sort_strs(v.deep_view()),
{
    let mut r: Vec<String> = Vec::new();
    let n = v.len();
    let mut k: usize = 0;
    while k < n
        invariant
            n == v@.len(),
            k <= n,
            r.deep_view() == sort_strs(v.deep_view().take(k as int)),
        decreases n - k,
    {
        let x = v[k].clone();
        let ghost prev = r.deep_view();
        let mut i: usize = 0;
        while i < r.len() && !crate::text::str_lt(x.as_str(), r[i].as_str())
            invariant
                i <= r@.len(),
                prev == r.deep_view(),
                forall|j: int| 0 <= j < i ==> !seq_lt(x@, #[trigger] prev[j]),
            decreases r@.len() - i,
        {
            i = i + 1;
        }
        proof {
            lemma_ins_pos(prev, x@, i as int);
            let t = v.deep_view().take(k + 1);
            assert(t.drop_last() =~= v.deep_view().take(k as int));
            assert(t.last() == x@);
        }
        r.insert(i, x);
        assert(r.deep_view() =~= prev.insert(i as int, v@[k as int]@));
        k = k + 1;
    }
    assert(v.deep_view().take(n as int) =~= v.deep_view());
    r
}

// ---------------------------------------------------------------------------
// Display ids
// ---------------------------------------------------------------------------

/// A resolved display handle for one issue.
#[derive(Clone, Debug, PartialEq, Eq)]
pub struct DisplayId {
    pub uuid: String,
    /// Actor-scoped nonce, e.g. `alice-3`: the typeable actor-qualified form.
    pub nonce: String,
    /// Creating actor slug, e.g. `alice`.
    pub actor: String,
    /// Per-actor sequence number (the `3` in `alice-3`).
    pub number: usize,
    /// `#3` when that number is unambiguous across all issues, else the
    /// actor-qualified `alice-#3`.
    pub handle: String,
    /// Short uuid prefix, always a valid permanent handle.
    pub short: String,
}

pub struct DisplayIdView {
    pub uuid: Seq<char>,
    pub nonce: Seq<char>,
    pub actor: Seq<char>,
    pub number: nat,
    pub handle: Seq<char>,
    pub short: Seq<char>,
}

impl View for DisplayId {
    type V = DisplayIdView;

    open spec fn view(&self) -> DisplayIdView {
        DisplayIdView {
            uuid: self.uuid@,
            nonce: self.nonce@,
            actor: self.actor@,
            number: self.number as nat,
            handle: self.handle@,
            short: self.short@,
        }
    }
}

impl DisplayId {
    /// A copy of this display id.
    pub fn duplicate(&self) -> (r: DisplayId)
        ensures
            r@ == self@,
    {
        DisplayId {
            uuid: self.uuid.clone(),
            nonce: self.nonce.clone(),
            actor: self.actor.clone(),
            number: self.number,
            handle: self.handle.clone(),
            short: self.short.clone(),
        }
    }
}

/// `(uuid, creator)` of each issue.
pub open spec fn id_keys(issues: Seq<Issue>) -> Seq<(Seq<char>, Seq<char>)> {
    issues.map_values(|i: Issue| (i.uuid@, i.creator@))
}

/// Issue `j` comes before issue `i` in `i`'s actor's uuid order (equal uuids
/// keep their input order).
pub open spec fn earlier(ks: Seq<(Seq<char>, Seq<char>)>, j: int, i: int) -> bool {
    ks[j].1 == ks[i].1 && (seq_lt(ks[j].0, ks[i].0) || (ks[j].0 == ks[i].0 && j < i))
}

pub open spec fn count_earlier(ks: Seq<(Seq<char>, Seq<char>)>, i: int, m: int) -> nat
    decreases m,
{
    if m <= 0 {
        0
    } else {
        count_earlier(ks, i, m - 1) + if earlier(ks, m - 1, i) {
            1nat
        } else {
            0nat
        }
    }
}

/// The display number of issue `i`: its place among its actor's issues.
pub open spec fn number_of(ks: Seq<(Seq<char>, Seq<char>)>, i: int) -> nat {
    count_earlier(ks, i, ks.len() as int) + 1
}

/// How many of the first `m` issues carry display number `n`.
pub open spec fn count_number(ks: Seq<(Seq<char>, Seq<char>)>, n: nat, m: int) -> nat
    decreases m,
{
    if m <= 0 {
        0
    } else {
        count_number(ks, n, m - 1) + if number_of(ks, m - 1) == n {
            1nat
        } else {
            0nat
        }
    }
}

pub open spec fn nonce_text(actor: Seq<char>, n: nat) -> Seq<char> {
    actor + "-"@ + dec(n)
}

pub open spec fn handle_text(actor: Seq<char>, n: nat, shared: bool) -> Seq<char> {
    if shared {
        actor + "-#"@ + dec(n)
    } else {
        "#"@ + dec(n)
    }
}

pub open spec fn display_view(ks: Seq<(Seq<char>, Seq<char>)>, i: int) -> DisplayIdView {
    let n = number_of(ks, i);
    DisplayIdView {
        uuid: ks[i].0,
        nonce: nonce_text(ks[i].1, n),
        actor: ks[i].1,
        number: n,
        handle: handle_text(ks[i].1, n, count_number(ks, n, ks.len() as int) > 1),
        short: short_of(ks[i].0),
    }
}

/// No later issue has the same uuid.
pub open spec fn is_last(ks: Seq<(Seq<char>, Seq<char>)>, i: int) -> bool {
    forall|j: int| i < j < ks.len() ==> (#[trigger] ks[j]).0 != ks[i].0
}

/// The display ids of the first `m` issues, one per uuid (the last issue
/// with a uuid stands for it).
pub open spec fn table_upto(ks: Seq<(Seq<char>, Seq<char>)>, m: int) -> Seq<DisplayIdView>
    decreases m,
{
    if m <= 0 {
        Seq::empty()
    } else if is_last(ks, m - 1) {
        table_upto(ks, m - 1).push(display_view(ks, m - 1))
    } else {
        table_upto(ks, m - 1)
    }
}

pub open spec fn display_table(ks: Seq<(Seq<char>, Seq<char>)>) -> Seq<DisplayIdView> {
    table_upto(ks, ks.len() as int)
}

/// The display ids of a set of issues, one per uuid.
pub struct DisplayTable {
    pub entries: Vec<DisplayId>,
}

pub open spec fn views_of(es: Seq<DisplayId>) -> Seq<DisplayIdView> {
    es.map_values(|d: DisplayId| d@)
}

impl View for DisplayTable {
    type V = Seq<DisplayIdView>;

    open spec fn view(&self) -> Seq<DisplayIdView> {
        views_of(self.entries@)
    }
}

/// The index of the first entry with uuid `u` (the table has it).
pub open spec fn first_uuid(es: Seq<DisplayIdView>, u: Seq<char>) -> int {
    choose|i: int|
        0 <= i < es.len() && es[i].uuid == u && forall|j: int| 0 <= j < i ==> (#[trigger] es[j]).uuid
            != u
}

pub open spec fn has_uuid(es: Seq<DisplayIdView>, u: Seq<char>) -> bool {
    exists|i: int| 0 <= i < es.len() && (#[trigger] es[i]).uuid == u
}

/// The index of the first entry with nonce `q` (the table has it).
pub open spec fn first_nonce(es: Seq<DisplayIdView>, q: Seq<char>) -> int {
    choose|i: int|
        0 <= i < es.len() && es[i].nonce == q && forall|j: int| 0 <= j < i ==> (#[trigger] es[j]).nonce
            != q
}

pub open spec fn has_nonce(es: Seq<DisplayIdView>, q: Seq<char>) -> bool {
    exists|i: int| 0 <= i < es.len() && (#[trigger] es[i]).nonce == q
}

impl DisplayTable {
    pub fn len(&self) -> (r: usize)
        ensures
            r == self@.len(),
    {
        self.entries.len()
    }

    /// The display id of `uuid`, if the table has one.
    pub fn get(&self, uuid: &str) -> (r: Option<&DisplayId>)
        ensures
            match r {
                Some(d) => has_uuid(self@, uuid@) && d@ == self@[first_uuid(self@, uuid@)],
                None => !has_uuid(self@, uuid@),
            },
    {
        let n = self.entries.len();
        let mut i: usize = 0;
        while i < n
            invariant
                n == self@.len(),
                i <= n,
                forall|j: int| 0 <= j < i ==> (#[trigger] self@[j]).uuid != uuid@,
            decreases n - i,
        {
            if crate::text::str_eq(self.entries[i].uuid.as_str(), uuid) {
                proof {
                    let es = self@;
                    assert(es[i as int].uuid == uuid@);
                    let k = first_uuid(es, uuid@);
                    assert(k == i as int) by {
                        if k < i as int {
                            assert(es[k].uuid != uuid@);
                        } else if k > i as int {
                            assert(es[i as int].uuid != uuid@);
                        }
                    }
                }
                return Some(&self.entries[i]);
            }
            i = i + 1;
        }
        None
    }
}

fn earlier_exec(issues: &[Issue], j: usize, i: usize) -> (r: bool)
    requires
        j < issues@.len(),
        i < issues@.len(),
    ensures
        r == earlier(id_keys(issues@), j as int, i as int),
{
    crate::text::str_eq(issues[j].creator.as_str(), issues[i].creator.as_str()) && (
    crate::text::str_lt(issues[j].uuid.as_str(), issues[i].uuid.as_str()) || (crate::text::str_eq(
        issues[j].uuid.as_str(),
        issues[i].uuid.as_str(),
    ) && j < i))
}

fn concat3(a: &str, b: &str, c: &str) -> (r: String)
    ensures
        r@ == a@ + b@ + c@,
{
    let mut s = a.to_owned();
    crate::text::push_str(&mut s, b);
    crate::text::push_str(&mut s, c);
    s
}

/// Computes display ids for every issue.
///
/// For each creating actor, its issues are sorted by UUIDv7 (time order) and
/// numbered 1..N, so the earlier UUIDv7 keeps the lower number when an actor
/// minted the same number from two clones. The handle is a bare `#N` while
/// that number is carried by one issue only, else the actor-qualified
/// `alice-#N`.
pub fn assign_display_ids(issues: &[Issue]) -> (r: DisplayTable)
    ensures
        r@ == display_table(id_keys(issues@)),
{
    let n = issues.len();
    let ghost ks = id_keys(issues@);
    let mut numbers: Vec<usize> = Vec::new();
    let mut i: usize = 0;
    while i < n
        invariant
            n == issues@.len(),
            ks == id_keys(issues@),
            i <= n,
            numbers@.len() == i,
            forall|k: int| 0 <= k < i ==> #[trigger] numbers@[k] as nat == number_of(ks, k),
        decreases n - i,
    {
        let mut c: usize = 0;
        let mut j: usize = 0;
        while j < n
            invariant
                n == issues@.len(),
                ks == id_keys(issues@),
                i < n,
                j <= n,
                c + (if j > i {
                    1int
                } else {
                    0int
                }) <= j,
                c as nat == count_earlier(ks, i as int, j as int),
            decreases n - j,
        {
            proof {
                crate::text::lemma_seq_lt_irrefl(ks[i as int].0);
            }
            if earlier_exec(issues, j, i) {
                c = c + 1;
            }
            j = j + 1;
        }
        numbers.push(c + 1);
        i = i + 1;
    }
    let mut entries: Vec<DisplayId> = Vec::new();
    let mut i: usize = 0;
    while i < n
        invariant
            n == issues@.len(),
            ks == id_keys(issues@),
            numbers@.len() == n,
            forall|k: int| 0 <= k < n ==> #[trigger] numbers@[k] as nat == number_of(ks, k),
            i <= n,
            views_of(entries@) == table_upto(ks, i as int),
        decreases n - i,
    {
        let num = numbers[i];
        let mut cnt: usize = 0;
        let mut j: usize = 0;
        while j < n
            invariant
                n == issues@.len(),
                numbers@.len() == n,
                forall|k: int| 0 <= k < n ==> #[trigger] numbers@[k] as nat == number_of(ks, k),
                num as nat == number_of(ks, i as int),
                i < n,
                j <= n,
                cnt <= j,
                cnt as nat == count_number(ks, num as nat, j as int),
            decreases n - j,
        {
            if numbers[j] == num {
                cnt = cnt + 1;
            }
            j = j + 1;
        }
        let mut last = true;
        let mut j: usize = i + 1;
        while j < n
            invariant
                n == issues@.len(),
                ks == id_keys(issues@),
                i < n,
                i + 1 <= j <= n,
                last == (forall|k: int| i < k < j ==> (#[trigger] ks[k]).0 != ks[i as int].0),
            decreases n - j,
        {
            assert(ks[j as int].0 == issues@[j as int].uuid@);
            assert(ks[i as int].0 == issues@[i as int].uuid@);
            if crate::text::str_eq(issues[j].uuid.as_str(), issues[i].uuid.as_str()) {
                last = false;
            }
            j = j + 1;
        }
        let ghost before = views_of(entries@);
        if last {
            let actor = issues[i].creator.as_str();
            let digits = crate::text::usize_to_string(num);
            let handle = if cnt > 1 {
                concat3(actor, "-#", digits.as_str())
            } else {
                concat3("", "#", digits.as_str())
            };
            proof {
                reveal_strlit("");
                assert(""@ + "#"@ + digits@ =~= "#"@ + digits@);
            }
            let d = DisplayId {
                uuid: issues[i].uuid.clone(),
                nonce: concat3(actor, "-", digits.as_str()),
                actor: issues[i].creator.clone(),
                number: num,
                handle,
                short: short_prefix(issues[i].uuid.as_str()),
            };
            entries.push(d);
            assert(views_of(entries@) =~= before.push(display_view(ks, i as int)));
        }
        i = i + 1;
    }
    DisplayTable { entries }
}

// ---------------------------------------------------------------------------
// Resolving a typed id
// ---------------------------------------------------------------------------

/// The outcome of resolving a user-supplied id query.
pub enum Resolution {
    /// Exactly one issue matched; here is its uuid.
    Unique(String),
    /// No issue matched.
    NoMatch,
    /// Several issues matched (sorted uuids).
    Ambiguous(Vec<String>),
}

pub enum ResView {
    Unique(Seq<char>),
    NoMatch,
    Ambiguous(Seq<Seq<char>>),
}

impl View for Resolution {
    type V = ResView;

    open spec fn view(&self) -> ResView {
        match self {
            Resolution::Unique(u) => ResView::Unique(u@),
            Resolution::NoMatch => ResView::NoMatch,
            Resolution::Ambiguous(v) => ResView::Ambiguous(v.deep_view()),
        }
    }
}

/// The uuids of the entries with display number `n`, in table order.
pub open spec fn number_matches(es: Seq<DisplayIdView>, n: nat) -> Seq<Seq<char>>
    decreases es.len(),
{
    if es.len() == 0 {
        Seq::empty()
    } else {
        let r = number_matches(es.drop_last(), n);
        if es.last().number == n {
            r.push(es.last().uuid)
        } else {
            r
        }
    }
}

/// The uuids of the entries whose uuid starts with `q`, in table order.
pub open spec fn prefix_matches(es: Seq<DisplayIdView>, q: Seq<char>) -> Seq<Seq<char>>
    decreases es.len(),
{
    if es.len() == 0 {
        Seq::empty()
    } else {
        let r = prefix_matches(es.drop_last(), q);
        if is_prefix(q, es.last().uuid) {
            r.push(es.last().uuid)
        } else {
            r
        }
    }
}

/// Every `-#` replaced by `-`, left to right (`str::replace("-#", "-")`).
pub open spec fn drop_hash_after_dash(s: Seq<char>) -> Seq<char>
    decreases s.len(),
{
    if s.len() == 0 {
        s
    } else if s.len() >= 2 && s[0] == '-' && s[1] == '#' {
        seq!['-'] + drop_hash_after_dash(s.skip(2))
    } else {
        seq![s[0]] + drop_hash_after_dash(s.drop_first())
    }
}

pub open spec fn all_hex(s: Seq<char>) -> bool {
    forall|i: int| 0 <= i < s.len() ==> is_ascii_hex(#[trigger] s[i])
}

/// The query with surrounding whitespace removed and ASCII lowercased.
pub open spec fn normalized(q: Seq<char>) -> Seq<char> {
    lower_seq(trim(q))
}

/// The query without a leading `#`.
pub open spec fn without_hash(ql: Seq<char>) -> Seq<char> {
    if ql.len() > 0 && ql[0] == '#' {
        ql.drop_first()
    } else {
        ql
    }
}

/// The sorted uuids a display number names (none unless the query is a
/// number that fits in `usize`).
pub open spec fn by_number(es: Seq<DisplayIdView>, ql: Seq<char>) -> Seq<Seq<char>> {
    let qn = without_hash(ql);
    if qn.len() > 0 && all_digits(qn) {
        match parse_unsigned(qn, usize::MAX as nat) {
            Some(n) => sort_strs(number_matches(es, n)),
            None => Seq::empty(),
        }
    } else {
        Seq::empty()
    }
}

pub open spec fn by_prefix(ms: Seq<Seq<char>>) -> ResView {
    if ms.len() == 0 {
        ResView::NoMatch
    } else if ms.len() == 1 {
        ResView::Unique(ms[0])
    } else {
        ResView::Ambiguous(ms)
    }
}

/// What an id query names, tried in this order: a display number (`#N` or
/// `N`), an actor nonce (`alice-1`, also written `alice-#1`), a full uuid, a
/// uuid prefix. Matching ignores surrounding whitespace and ASCII case.
pub open spec fn spec_resolve(q: Seq<char>, es: Seq<DisplayIdView>) -> ResView {
    let ql = normalized(q);
    let bn = by_number(es, ql);
    let nq = drop_hash_after_dash(ql);
    if bn.len() == 1 {
        ResView::Unique(bn[0])
    } else if bn.len() > 1 {
        ResView::Ambiguous(bn)
    } else if has_nonce(es, nq) {
        ResView::Unique(es[first_nonce(es, nq)].uuid)
    } else if has_uuid(es, ql) {
        ResView::Unique(ql)
    } else if ql.len() > 0 && all_hex(ql) {
        by_prefix(sort_strs(prefix_matches(es, ql)))
    } else {
        ResView::NoMatch
    }
}

fn replace_dash_hash(v: &[char]) -> (r: Vec<char>)
    ensures
        r@ == drop_hash_after_dash(v@),
{
    let n = v.len();
    let mut out: Vec<char> = Vec::new();
    let mut i: usize = 0;
    proof {
        assert(v@.subrange(0, n as int) =~= v@);
        assert(out@ + drop_hash_after_dash(v@) =~= drop_hash_after_dash(v@));
    }
    while i < n
        invariant
            n == v@.len(),
            i <= n,
            out@ + drop_hash_after_dash(v@.subrange(i as int, n as int)) == drop_hash_after_dash(v@),
        decreases n - i,
    {
        let ghost rest = v@.subrange(i as int, n as int);
        if i + 1 < n && v[i] == '-' && v[i + 1] == '#' {
            out.push('-');
            proof {
                assert(rest.skip(2) =~= v@.subrange(i + 2, n as int));
                assert(out@ + drop_hash_after_dash(v@.subrange(i + 2, n as int)) =~= out@.drop_last()
                    + (seq!['-'] + drop_hash_after_dash(rest.skip(2))));
            }
            i = i + 2;
        } else {
            out.push(v[i]);
            proof {
                assert(rest.drop_first() =~= v@.subrange(i + 1, n as int));
                assert(out@ + drop_hash_after_dash(v@.subrange(i + 1, n as int)) =~= out@.drop_last()
                    + (seq![v@[i as int]] + drop_hash_after_dash(rest.drop_first())));
            }
            i = i + 1;
        }
    }
    proof {
        assert(v@.subrange(n as int, n as int) =~= Seq::<char>::empty());
        assert(out@ + Seq::<char>::empty() =~= out@);
    }
    out
}

fn all_digit_chars(v: &[char]) -> (r: bool)
    ensures
        r == all_digits(v@),
{
    let mut i: usize = 0;
    while i < v.len()
        invariant
            i <= v@.len(),
            forall|k: int| 0 <= k < i ==> is_ascii_digit(#[trigger] v@[k]),
        decreases v@.len() - i,
    {
        if !crate::text::is_digit(v[i]) {
            return false;
        }
        i = i + 1;
    }
    true
}

fn all_hex_chars(v: &[char]) -> (r: bool)
    ensures
        r == all_hex(v@),
{
    let mut i: usize = 0;
    while i < v.len()
        invariant
            i <= v@.len(),
            forall|k: int| 0 <= k < i ==> is_ascii_hex(#[trigger] v@[k]),
        decreases v@.len() - i,
    {
        if !crate::text::is_hex(v[i]) {
            return false;
        }
        i = i + 1;
    }
    true
}

fn uuids_numbered(d: &DisplayTable, n: usize) -> (r: Vec<String>)
    ensures
        r.deep_view() == number_matches(d@, n as nat),
{
    let mut r: Vec<String> = Vec::new();
    let m = d.entries.len();
    let mut i: usize = 0;
    while i < m
        invariant
            m == d@.len(),
            i <= m,
            r.deep_view() == number_matches(d@.take(i as int), n as nat),
        decreases m - i,
    {
        proof {
            assert(d@.take(i + 1).drop_last() =~= d@.take(i as int));
        }
        if d.entries[i].number == n {
            let ghost before = r.deep_view();
            r.push(d.entries[i].uuid.clone());
            assert(r.deep_view() =~= before.push(d@[i as int].uuid));
        }
        i = i + 1;
    }
    assert(d@.take(m as int) =~= d@);
    r
}

fn uuids_prefixed(d: &DisplayTable, q: &[char]) -> (r: Vec<String>)
    ensures
        r.deep_view() == prefix_matches(d@, q@),
{
    let mut r: Vec<String> = Vec::new();
    let m = d.entries.len();
    let mut i: usize = 0;
    while i < m
        invariant
            m == d@.len(),
            i <= m,
            r.deep_view() == prefix_matches(d@.take(i as int), q@),
        decreases m - i,
    {
        proof {
            assert(d@.take(i + 1).drop_last() =~= d@.take(i as int));
        }
        let u = crate::text::to_chars(d.entries[i].uuid.as_str());
        if crate::text::chars_starts_with(u.as_slice(), q) {
            let ghost before = r.deep_view();
            r.push(d.entries[i].uuid.clone());
            assert(r.deep_view() =~= before.push(d@[i as int].uuid));
        }
        i = i + 1;
    }
    assert(d@.take(m as int) =~= d@);
    r
}

fn find_nonce(d: &DisplayTable, q: &[char]) -> (r: Option<usize>)
    ensures
        match r {
            Some(i) => has_nonce(d@, q@) && i as int == first_nonce(d@, q@) && i < d@.len(),
            None => !has_nonce(d@, q@),
        },
{
    let n = d.entries.len();
    let mut i: usize = 0;
    while i < n
        invariant
            n == d@.len(),
            i <= n,
            forall|j: int| 0 <= j < i ==> (#[trigger] d@[j]).nonce != q@,
        decreases n - i,
    {
        let nv = crate::text::to_chars(d.entries[i].nonce.as_str());
        if crate::text::chars_eq(nv.as_slice(), q) {
            proof {
                let es = d@;
                assert(es[i as int].nonce == q@);
                let k = first_nonce(es, q@);
                assert(k == i as int) by {
                    if k < i as int {
                        assert(es[k].nonce != q@);
                    } else if k > i as int {
                        assert(es[i as int].nonce != q@);
                    }
                }
            }
            return Some(i);
        }
        i = i + 1;
    }
    None
}

/// Resolves an id query (a display number, an actor nonce, a full uuid or a
/// uuid prefix) against the display ids.
pub fn resolve(query: &str, display: &DisplayTable) -> (r: Resolution)
    ensures
        r@ == spec_resolve(query@, display@),
{
    let v = crate::text::to_chars(query);
    let (a, b) = crate::text::trim_range(v.as_slice());
    let t = crate::text::copy_range(v.as_slice(), a, b);
    let ql = crate::text::lower_chars(t.as_slice());
    let ghost es = display@;
    // 1. A display number: `#N` or bare `N`.
    let qn = if ql.len() > 0 && ql[0] == '#' {
        let r = crate::text::copy_range(ql.as_slice(), 1, ql.len());
        assert(r@ =~= ql@.drop_first());
        r
    } else {
        ql.clone()
    };
    let mut numbered: Vec<String> = Vec::new();
    if qn.len() > 0 && all_digit_chars(qn.as_slice()) {
        match crate::text::parse_u64_chars(qn.as_slice(), usize::MAX as u64) {
            Some(n) => {
                numbered = sorted_strings(uuids_numbered(display, n as usize));
            },
            None => {},
        }
    }
    assert(numbered.deep_view() =~= by_number(es, ql@));
    if numbered.len() == 1 {
        return Resolution::Unique(numbered[0].clone());
    } else if numbered.len() > 1 {
        return Resolution::Ambiguous(numbered);
    }
    // 2. An actor nonce, also in its shown `alice-#1` form.
    let nq = replace_dash_hash(ql.as_slice());
    match find_nonce(display, nq.as_slice()) {
        Some(i) => return Resolution::Unique(display.entries[i].uuid.clone()),
        None => {},
    }
    // 3. A full uuid.
    let qs = crate::text::from_chars(ql.as_slice());
    if display.get(qs.as_str()).is_some() {
        return Resolution::Unique(qs);
    }
    // 4. A uuid prefix, when the query looks like hex.
    if ql.len() > 0 && all_hex_chars(ql.as_slice()) {
        let ms = sorted_strings(uuids_prefixed(display, ql.as_slice()));
        if ms.len() == 0 {
            return Resolution::NoMatch;
        } else if ms.len() == 1 {
            return Resolution::Unique(ms[0].clone());
        } else {
            return Resolution::Ambiguous(ms);
        }
    }
    Resolution::NoMatch
}

// ---------------------------------------------------------------------------
// Laws of display ids
// ---------------------------------------------------------------------------

proof fn lemma_earlier_total(ks: Seq<(Seq<char>, Seq<char>)>, i: int, j: int)
    requires
        0 <= i < ks.len(),
        0 <= j < ks.len(),
        i != j,
        ks[i].1 == ks[j].1,
    ensures
        earlier(ks, i, j) || earlier(ks, j, i),
        !(earlier(ks, i, j) && earlier(ks, j, i)),
{
    crate::text::lemma_seq_lt_total(ks[i].0, ks[j].0);
    if seq_lt(ks[i].0, ks[j].0) {
        crate::text::lemma_seq_lt_asym(ks[i].0, ks[j].0);
        crate::text::lemma_seq_lt_irrefl(ks[i].0);
    } else if seq_lt(ks[j].0, ks[i].0) {
        crate::text::lemma_seq_lt_asym(ks[j].0, ks[i].0);
        crate::text::lemma_seq_lt_irrefl(ks[j].0);
    } else {
        crate::text::lemma_seq_lt_irrefl(ks[i].0);
    }
}

proof fn lemma_earlier_trans(ks: Seq<(Seq<char>, Seq<char>)>, k: int, i: int, j: int)
    requires
        earlier(ks, k, i),
        earlier(ks, i, j),
    ensures
        earlier(ks, k, j),
{
    if seq_lt(ks[k].0, ks[i].0) && seq_lt(ks[i].0, ks[j].0) {
        crate::text::lemma_seq_lt_trans(ks[k].0, ks[i].0, ks[j].0);
    }
}

/// Counting what comes before `i` and before `j`, when everything before
/// `i` is also before `j`, and `i` itself is before `j` (within range).
proof fn lemma_count_mono(ks: Seq<(Seq<char>, Seq<char>)>, i: int, j: int, m: int)
    requires
        0 <= i < ks.len(),
        0 <= j < ks.len(),
        earlier(ks, i, j),
        0 <= m <= ks.len(),
    ensures
        count_earlier(ks, i, m) + (if i < m {
            1int
        } else {
            0int
        }) <= count_earlier(ks, j, m),
    decreases m,
{
    if m > 0 {
        lemma_count_mono(ks, i, j, m - 1);
        let k = m - 1;
        if earlier(ks, k, i) {
            lemma_earlier_trans(ks, k, i, j);
        }
        if k == i {
            crate::text::lemma_seq_lt_irrefl(ks[i].0);
        }
    }
}

/// Two different issues of one actor carry different display numbers.
proof fn lemma_numbers_differ(ks: Seq<(Seq<char>, Seq<char>)>, i: int, j: int)
    requires
        0 <= i < ks.len(),
        0 <= j < ks.len(),
        i != j,
        ks[i].1 == ks[j].1,
    ensures
        number_of(ks, i) != number_of(ks, j),
{
    lemma_earlier_total(ks, i, j);
    if earlier(ks, i, j) {
        lemma_count_mono(ks, i, j, ks.len() as int);
    } else {
        lemma_count_mono(ks, j, i, ks.len() as int);
    }
}

/// How many of the first `m` issues the actor `a` created.
pub open spec fn actor_count(ks: Seq<(Seq<char>, Seq<char>)>, a: Seq<char>, m: int) -> nat
    decreases m,
{
    if m <= 0 {
        0
    } else {
        actor_count(ks, a, m - 1) + if ks[m - 1].1 == a {
            1nat
        } else {
            0nat
        }
    }
}

proof fn lemma_count_earlier_bound(ks: Seq<(Seq<char>, Seq<char>)>, i: int, m: int)
    requires
        0 <= i < ks.len(),
        0 <= m <= ks.len(),
    ensures
        count_earlier(ks, i, m) + (if i < m {
            1int
        } else {
            0int
        }) <= actor_count(ks, ks[i].1, m),
    decreases m,
{
    if m > 0 {
        lemma_count_earlier_bound(ks, i, m - 1);
        if m - 1 == i {
            crate::text::lemma_seq_lt_irrefl(ks[i].0);
        }
    }
}

/// Law: each actor's issues are numbered `1..N` in uuid (creation) order:
/// an issue's number lies between 1 and the count of its actor's issues,
/// two issues of one actor never share a number, and of two issues of one
/// actor the one with the smaller uuid has the smaller number.
pub proof fn law_display_numbers_per_actor(ks: Seq<(Seq<char>, Seq<char>)>, i: int, j: int)
    requires
        0 <= i < ks.len(),
        0 <= j < ks.len(),
    ensures
        1 <= number_of(ks, i) <= actor_count(ks, ks[i].1, ks.len() as int),
        i != j && ks[i].1 == ks[j].1 ==> number_of(ks, i) != number_of(ks, j),
        ks[i].1 == ks[j].1 && seq_lt(ks[i].0, ks[j].0) ==> number_of(ks, i) < number_of(ks, j),
{
    lemma_count_earlier_bound(ks, i, ks.len() as int);
    if i != j && ks[i].1 == ks[j].1 {
        lemma_numbers_differ(ks, i, j);
    }
    if ks[i].1 == ks[j].1 && seq_lt(ks[i].0, ks[j].0) {
        lemma_count_mono(ks, i, j, ks.len() as int);
    }
}

proof fn lemma_dec_no_dash(n: nat)
    ensures
        forall|i: int| 0 <= i < dec(n).len() ==> #[trigger] dec(n)[i] != '-' && dec(n)[i] != '#'
            && is_ascii_digit(dec(n)[i]),
{
    crate::text::lemma_dec_digits(n);
}

/// A nonce names its actor and number: the digits after its last hyphen.
proof fn lemma_nonce_injective(a1: Seq<char>, n1: nat, a2: Seq<char>, n2: nat)
    requires
        nonce_text(a1, n1) == nonce_text(a2, n2),
    ensures
        a1 == a2,
        n1 == n2,
{
    reveal_strlit("-");
    assert("-"@ =~= seq!['-']);
    lemma_dec_no_dash(n1);
    lemma_dec_no_dash(n2);
    let s = nonce_text(a1, n1);
    assert(s =~= a1 + seq!['-'] + dec(n1));
    assert(s =~= a2 + seq!['-'] + dec(n2));
    assert(s[a1.len() as int] == '-');
    assert(nonce_text(a2, n2)[a2.len() as int] == '-');
    if a1.len() < a2.len() {
        assert(s[a2.len() as int] == dec(n1)[a2.len() - a1.len() - 1]);
    } else if a2.len() < a1.len() {
        assert(s[a1.len() as int] == dec(n2)[a1.len() - a2.len() - 1]);
    }
    assert(a1 =~= s.take(a1.len() as int));
    assert(a2 =~= s.take(a2.len() as int));
    assert(dec(n1) =~= s.skip(a1.len() + 1int));
    assert(dec(n2) =~= s.skip(a2.len() + 1int));
    crate::text::lemma_dec_digits(n1);
    crate::text::lemma_dec_digits(n2);
}

/// Which issue each entry of the display table stands for: strictly
/// increasing indices of issues that are the last with their uuid.
proof fn lemma_table_sources(ks: Seq<(Seq<char>, Seq<char>)>, m: int) -> (w: Seq<int>)
    requires
        0 <= m <= ks.len(),
    ensures
        w.len() == table_upto(ks, m).len(),
        forall|e: int| 0 <= e < w.len() ==> 0 <= #[trigger] w[e] < m && is_last(ks, w[e])
            && table_upto(ks, m)[e] == display_view(ks, w[e]),
        forall|a: int, b: int| 0 <= a < b < w.len() ==> w[a] < w[b],
    decreases m,
{
    if m == 0 {
        Seq::empty()
    } else {
        let w0 = lemma_table_sources(ks, m - 1);
        if is_last(ks, m - 1) {
            let w = w0.push(m - 1);
            assert forall|e: int| 0 <= e < w.len() implies 0 <= #[trigger] w[e] < m && is_last(
                ks,
                w[e],
            ) && table_upto(ks, m)[e] == display_view(ks, w[e]) by {
                if e < w0.len() {
                    assert(w[e] == w0[e]);
                }
            }
            w
        } else {
            w0
        }
    }
}

/// Law: no two issues in a display table share a nonce. A nonce is the
/// actor, a hyphen and the number, so it names both; two issues of one
/// actor get different numbers, so `alice-1` and `bob-1` never clash.
pub proof fn law_display_nonces_distinct(ks: Seq<(Seq<char>, Seq<char>)>, a: int, b: int)
    requires
        0 <= a < b < display_table(ks).len(),
    ensures
        display_table(ks)[a].nonce != display_table(ks)[b].nonce,
        display_table(ks)[a].uuid != display_table(ks)[b].uuid,
{
    let w = lemma_table_sources(ks, ks.len() as int);
    let (ia, ib) = (w[a], w[b]);
    assert(ia < ib);
    assert(is_last(ks, ia));
    assert(ks[ib].0 != ks[ia].0);
    if display_table(ks)[a].nonce == display_table(ks)[b].nonce {
        lemma_nonce_injective(ks[ia].1, number_of(ks, ia), ks[ib].1, number_of(ks, ib));
        lemma_numbers_differ(ks, ia, ib);
    }
}

proof fn lemma_no_hash_kept(s: Seq<char>)
    requires
        forall|i: int| 0 <= i < s.len() ==> #[trigger] s[i] != '#',
    ensures
        drop_hash_after_dash(s) == s,
    decreases s.len(),
{
    if s.len() > 0 {
        assert forall|i: int| 0 <= i < s.drop_first().len() implies #[trigger] s.drop_first()[i]
            != '#' by {
            assert(s.drop_first()[i] == s[i + 1]);
        }
        lemma_no_hash_kept(s.drop_first());
        assert(s.len() >= 2 ==> s[1] != '#');
        assert(seq![s[0]] + s.drop_first() =~= s);
    }
}

/// A nonce of a slug actor reads as itself: trimmed, lowercase, no `#`, and
/// not a number.
proof fn lemma_nonce_plain(actor: Seq<char>, n: nat)
    requires
        is_slug(actor),
    ensures
        normalized(nonce_text(actor, n)) == nonce_text(actor, n),
        without_hash(nonce_text(actor, n)) == nonce_text(actor, n),
        !all_digits(nonce_text(actor, n)),
        drop_hash_after_dash(nonce_text(actor, n)) == nonce_text(actor, n),
{
    let q = nonce_text(actor, n);
    reveal_strlit("-");
    assert("-"@ =~= seq!['-']);
    assert(q =~= actor + seq!['-'] + dec(n));
    lemma_dec_no_dash(n);
    assert forall|k: int| 0 <= k < q.len() implies #[trigger] q[k] != '#' && !is_ws(q[k])
        && !crate::text::is_ascii_upper(q[k]) by {
        if k < actor.len() {
            assert(q[k] == actor[k]);
            assert(slug_char(actor[k]));
        } else if k > actor.len() {
            assert(q[k] == dec(n)[k - actor.len() - 1]);
        }
    }
    assert(!is_ws(q[0]) && !is_ws(q[q.len() - 1]));
    crate::text::lemma_trim_of_trimmed(q);
    assert(lower_seq(q) =~= q);
    assert(q[actor.len() as int] == '-');
    lemma_no_hash_kept(q);
}

/// A query that is exactly one entry's nonce, and no other's, resolves to
/// that entry.
proof fn lemma_resolve_unique_nonce(t: Seq<DisplayIdView>, a: int, q: Seq<char>)
    requires
        0 <= a < t.len(),
        q == t[a].nonce,
        normalized(q) == q,
        without_hash(q) == q,
        !all_digits(q),
        drop_hash_after_dash(q) == q,
        forall|b: int| 0 <= b < t.len() && b != a ==> (#[trigger] t[b]).nonce != q,
    ensures
        spec_resolve(q, t) == ResView::Unique(t[a].uuid),
{
    assert(by_number(t, q) =~= Seq::<Seq<char>>::empty());
    assert(has_nonce(t, q));
    let f = first_nonce(t, q);
    assert(t[f].nonce == q);
}

/// Law: typing an issue's own nonce resolves to that issue, whenever every
/// creator is an actor slug (as every writer records it).
pub proof fn law_own_nonce_resolves(ks: Seq<(Seq<char>, Seq<char>)>, a: int)
    requires
        0 <= a < display_table(ks).len(),
        forall|i: int| 0 <= i < ks.len() ==> is_slug(#[trigger] ks[i].1),
    ensures
        spec_resolve(display_table(ks)[a].nonce, display_table(ks)) == ResView::Unique(
            display_table(ks)[a].uuid,
        ),
{
    let t = display_table(ks);
    let w = lemma_table_sources(ks, ks.len() as int);
    let i = w[a];
    let q = t[a].nonce;
    assert(q == nonce_text(ks[i].1, number_of(ks, i)));
    assert(is_slug(ks[i].1));
    lemma_nonce_plain(ks[i].1, number_of(ks, i));
    assert forall|b: int| 0 <= b < t.len() && b != a implies (#[trigger] t[b]).nonce != q by {
        if b < a {
            law_display_nonces_distinct(ks, b, a);
        } else {
            law_display_nonces_distinct(ks, a, b);
        }
    }
    lemma_resolve_unique_nonce(t, a, q);
}

} // verus!
