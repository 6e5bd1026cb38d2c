//! The indentation-driven chart parser.
//!
//! A chart file is a sequence of lines.  Comment and blank lines are
//! skipped; any other line names one account: its leading whitespace is the
//! indent, `=token` pieces are tags, `[token]` pieces are labels, and the
//! rest, trimmed and collapsed, is the bare account name.  Indents nest by
//! string-prefix containment, tracked on a stack that also remembers the
//! last account added at each depth.
//!
//! Whitespace, throughout the parser, means the Unicode `White_Space`
//! characters — the set `char::is_whitespace` accepts and `str::trim`
//! removes — spelled out in [`is_space`] so the contracts stay exact.

use vstd::prelude::*;

use crate::account::{
    add_outcome, chart_error_matches, chart_wf, Chart, ChartError, ChartErrorView, ChartView,
};
use crate::error::{InputError, InputLoc};
use crate::tags::{seq_views, str_views};

verus! {

/// The whitespace the parser recognises: the Unicode `White_Space`
/// characters, exactly those `char::is_whitespace` accepts and `str::trim`
/// removes.
pub open spec fn is_space(c: char) -> bool {
    let n = c as u32;
    (9 <= n && n <= 13)  // tab, line feed, vertical tab, form feed, carriage return
    || n == 32  // space
    || n == 0x85  // next line
    || n == 0xA0  // no-break space
    || n == 0x1680  // ogham space mark
    || (0x2000 <= n && n <= 0x200A)  // en quad through hair space
    || n == 0x2028  // line separator
    || n == 0x2029  // paragraph separator
    || n == 0x202F  // narrow no-break space
    || n == 0x205F  // medium mathematical space
    || n == 0x3000  // ideographic space
}

fn space_char(c: char) -> (r: bool)
    ensures
        r == is_space(c),
{
    let n = c as u32;
    (9 <= n && n <= 13) || n == 32 || n == 0x85 || n == 0xA0 || n == 0x1680 || (0x2000 <= n && n
        <= 0x200A) || n == 0x2028 || n == 0x2029 || n == 0x202F || n == 0x205F || n == 0x3000
}

/// A character a tag token may contain: anything but whitespace and `=`.
pub open spec fn tag_run_char(c: char) -> bool {
    c != '=' && !is_space(c)
}

fn tag_run_char_exec(c: char) -> (r: bool)
    ensures
        r == tag_run_char(c),
{
    c != '=' && !space_char(c)
}

/// The first position at or after `k` whose character ends a tag run.
pub open spec fn run_end(s: Seq<char>, k: int) -> int
    decreases s.len() - k,
{
    if 0 <= k < s.len() && tag_run_char(s[k]) {
        run_end(s, k + 1)
    } else {
        k
    }
}

pub proof fn lemma_run_end_bounds(s: Seq<char>, k: int)
    requires
        0 <= k <= s.len(),
    ensures
        k <= run_end(s, k) <= s.len(),
    decreases s.len() - k,
{
    if k < s.len() && tag_run_char(s[k]) {
        lemma_run_end_bounds(s, k + 1);
    }
}

fn run_end_exec(s: &str, k: usize) -> (r: usize)
    requires
        k <= s@.len(),
    ensures
        r as int == run_end(s@, k as int),
        k <= r <= s@.len(),
    {
    let n = s.unicode_len();
    let mut r = k;
    while r < n && tag_run_char_exec(s.get_char(r))
        invariant
            k <= r <= n,
            n == s@.len(),
            run_end(s@, k as int) == run_end(s@, r as int),
        decreases n - r,
    {
        r += 1;
    }
    r
}

/// The first position at or after `k` holding `]`, or the length when
/// there is none.
pub open spec fn close_from(s: Seq<char>, k: int) -> int
    decreases s.len() - k,
{
    if 0 <= k < s.len() {
        if s[k] == ']' {
            k
        } else {
            close_from(s, k + 1)
        }
    } else {
        s.len() as int
    }
}

fn close_from_exec(s: &str, k: usize) -> (r: usize)
    requires
        k <= s@.len(),
    ensures
        r as int == close_from(s@, k as int),
        k <= r <= s@.len(),
{
    let n = s.unicode_len();
    let mut r = k;
    while r < n && s.get_char(r) != ']'
        invariant
            k <= r <= n,
            n == s@.len(),
            close_from(s@, k as int) == close_from(s@, r as int),
        decreases n - r,
    {
        r += 1;
    }
    r
}

/// The first position at or after `k` holding a non-space character.
pub open spec fn trim_start_idx(s: Seq<char>, k: int) -> int
    decreases s.len() - k,
{
    if 0 <= k < s.len() && is_space(s[k]) {
        trim_start_idx(s, k + 1)
    } else {
        k
    }
}

pub(crate) fn trim_start_idx_exec(s: &str, k: usize) -> (r: usize)
    requires
        k <= s@.len(),
    ensures
        r as int == trim_start_idx(s@, k as int),
        k <= r <= s@.len(),
{
    let n = s.unicode_len();
    let mut r = k;
    while r < n && space_char(s.get_char(r))
        invariant
            k <= r <= n,
            n == s@.len(),
            trim_start_idx(s@, k as int) == trim_start_idx(s@, r as int),
        decreases n - r,
    {
        r += 1;
    }
    r
}

/// The position just after the last non-space character before `k`.
pub open spec fn trim_end_idx(s: Seq<char>, k: int) -> int
    decreases k,
{
    if 0 < k <= s.len() && is_space(s[k - 1]) {
        trim_end_idx(s, k - 1)
    } else {
        k
    }
}

pub proof fn lemma_trim_start_char(s: Seq<char>, k: int)
    requires
        0 <= k <= s.len(),
    ensures
        trim_start_idx(s, k) < s.len() ==> !is_space(s[trim_start_idx(s, k)]),
    decreases s.len() - k,
{
    if k < s.len() && is_space(s[k]) {
        lemma_trim_start_char(s, k + 1);
    }
}

pub proof fn lemma_trim_end_bounds(s: Seq<char>, k: int)
    requires
        0 <= k <= s.len(),
    ensures
        0 <= trim_end_idx(s, k) <= k,
    decreases k,
{
    if 0 < k && is_space(s[k - 1]) {
        lemma_trim_end_bounds(s, k - 1);
    }
}

/// `s` with leading and trailing whitespace removed.
pub open spec fn trim_spec(s: Seq<char>) -> Seq<char> {
    let a = trim_start_idx(s, 0);
    let b = trim_end_idx(s, s.len() as int);
    if a < b {
        s.subrange(a, b)
    } else {
        Seq::empty()
    }
}

/// Accumulates a fragment of the bare name: the fragment is trimmed, and,
/// when non-empty, appended after a single separating space.
pub open spec fn grow(acc: Seq<char>, frag: Seq<char>) -> Seq<char> {
    let t = trim_spec(frag);
    if t.len() == 0 {
        acc
    } else if acc.len() == 0 {
        t
    } else {
        acc + seq![' '] + t
    }
}

/// Appends a fragment to the name under construction, as [`grow`]
/// describes.
fn append_grown(acc: &mut String, frag: &str)
    ensures
        final(acc)@ == grow(old(acc)@, frag@),
{
    let n = frag.unicode_len();
    let a = trim_start_idx_exec(frag, 0);
    proof {
        lemma_trim_start_char(frag@, 0);
        lemma_trim_end_bounds(frag@, frag@.len() as int);
    }
    if a == n {
        proof {
            assert(trim_spec(frag@).len() == 0);
        }
        return ;
    }
    let mut b = n;
    while b > a + 1 && space_char(frag.get_char(b - 1))
        invariant
            a < b <= n,
            n == frag@.len(),
            trim_end_idx(frag@, n as int) == trim_end_idx(frag@, b as int),
        decreases b,
    {
        b -= 1;
    }
    proof {
        assert(a as int == trim_start_idx(frag@, 0));
        assert(!is_space(frag@[a as int]));
        if b == a + 1 {
            assert(trim_end_idx(frag@, b as int) == b);
        } else {
            assert(!is_space(frag@[b - 1]));
            assert(trim_end_idx(frag@, b as int) == b);
        }
        assert(trim_spec(frag@) == frag@.subrange(a as int, b as int));
    }
    let t = frag.substring_char(a, b);
    if acc.unicode_len() > 0 {
        acc.append(" ");
        proof {
            reveal_strlit(" ");
            assert(" "@ =~= seq![' ']);
        }
    }
    acc.append(t);
    proof {
        assert(acc@ =~= grow(old(acc)@, frag@));
    }
}

/// The tag scan over `s` from position `i`: every `=token` occurrence is
/// collected, and the text between matches accumulates, trimmed and
/// space-separated, into the bare name.
pub open spec fn scan_tags(
    s: Seq<char>,
    i: int,
    frag_start: int,
    acc: Seq<char>,
    toks: Seq<Seq<char>>,
) -> (Seq<char>, Seq<Seq<char>>)
    decreases s.len() - i,
{
    if 0 <= i < s.len() {
        let end = run_end(s, i + 2);
        if s[i] == '=' && i + 1 < s.len() && tag_run_char(s[i + 1]) && i + 1 < end && end
            <= s.len() {
            scan_tags(
                s,
                end,
                end,
                grow(acc, s.subrange(frag_start, i)),
                toks.push(s.subrange(i + 1, end)),
            )
        } else {
            scan_tags(s, i + 1, frag_start, acc, toks)
        }
    } else {
        (grow(acc, s.subrange(frag_start, s.len() as int)), toks)
    }
}

/// The label scan over `s` from position `i`: every `[token]` occurrence is
/// collected, the rest accumulating into the bare name as for tags.
pub open spec fn scan_labels(
    s: Seq<char>,
    i: int,
    frag_start: int,
    acc: Seq<char>,
    toks: Seq<Seq<char>>,
) -> (Seq<char>, Seq<Seq<char>>)
    decreases s.len() - i,
{
    if 0 <= i < s.len() {
        let j = close_from(s, i + 1);
        if s[i] == '[' && i + 1 < j && j < s.len() {
            scan_labels(
                s,
                j + 1,
                j + 1,
                grow(acc, s.subrange(frag_start, i)),
                toks.push(s.subrange(i + 1, j)),
            )
        } else {
            scan_labels(s, i + 1, frag_start, acc, toks)
        }
    } else {
        (grow(acc, s.subrange(frag_start, s.len() as int)), toks)
    }
}

/// A run of tag characters bounded by a non-run character ends exactly at
/// the bound.
proof fn lemma_run_end_exact(s: Seq<char>, a: int, b: int)
    requires
        0 <= a <= b <= s.len(),
        forall|j: int| a <= j < b ==> tag_run_char(#[trigger] s[j]),
        b == s.len() || !tag_run_char(s[b]),
    ensures
        run_end(s, a) == b,
    decreases b - a,
{
    if a < b {
        lemma_run_end_exact(s, a + 1, b);
    }
}

/// A region free of `]` up to one at the bound closes exactly there.
proof fn lemma_close_from_exact(s: Seq<char>, a: int, b: int)
    requires
        0 <= a <= b < s.len(),
        forall|j: int| a <= j < b ==> #[trigger] s[j] != ']',
        s[b] == ']',
    ensures
        close_from(s, a) == b,
    decreases b - a,
{
    if a < b {
        lemma_close_from_exact(s, a + 1, b);
    }
}

/// The tag scan passes over a region that starts no match.
proof fn lemma_scan_tags_skip(
    s: Seq<char>,
    a: int,
    b: int,
    frag_start: int,
    acc: Seq<char>,
    toks: Seq<Seq<char>>,
)
    requires
        0 <= a <= b <= s.len(),
        forall|j: int| a <= j < b ==> #[trigger] s[j] != '=',
    ensures
        scan_tags(s, a, frag_start, acc, toks) == scan_tags(s, b, frag_start, acc, toks),
    decreases b - a,
{
    if a < b {
        lemma_scan_tags_skip(s, a + 1, b, frag_start, acc, toks);
    }
}

/// The label scan passes over a region that starts no match.
proof fn lemma_scan_labels_skip(
    s: Seq<char>,
    a: int,
    b: int,
    frag_start: int,
    acc: Seq<char>,
    toks: Seq<Seq<char>>,
)
    requires
        0 <= a <= b <= s.len(),
        forall|j: int| a <= j < b ==> #[trigger] s[j] != '[',
    ensures
        scan_labels(s, a, frag_start, acc, toks) == scan_labels(s, b, frag_start, acc, toks),
    decreases b - a,
{
    if a < b {
        lemma_scan_labels_skip(s, a + 1, b, frag_start, acc, toks);
    }
}

/// A string that neither starts nor ends with a space trims to itself.
proof fn lemma_trim_clean(s: Seq<char>)
    requires
        s.len() > 0,
        !is_space(s[0]),
        !is_space(s[s.len() - 1]),
    ensures
        trim_spec(s) == s,
{
    assert(trim_start_idx(s, 0) == 0);
    assert(trim_end_idx(s, s.len() as int) == s.len());
    assert(s.subrange(0, s.len() as int) =~= s);
}

/// A clean string with one trailing space trims to the string itself.
proof fn lemma_trim_clean_trailing(s: Seq<char>, p: Seq<char>)
    requires
        s == p + seq![' '],
        p.len() > 0,
        !is_space(p[0]),
        !is_space(p[p.len() - 1]),
    ensures
        trim_spec(s) == p,
{
    assert(s.len() == p.len() + 1);
    assert(s[0] == p[0]);
    assert(trim_start_idx(s, 0) == 0);
    assert(is_space(s[s.len() - 1]));
    assert(s[s.len() - 2] == p[p.len() - 1]);
    assert(trim_end_idx(s, s.len() as int) == trim_end_idx(s, s.len() as int - 1));
    assert(trim_end_idx(s, s.len() as int - 1) == s.len() - 1);
    assert(s.subrange(0, s.len() as int - 1) =~= p);
}

/// A single space trims to nothing, so it grows nothing.
proof fn lemma_grow_space(acc: Seq<char>, s: Seq<char>)
    requires
        s == seq![' '],
    ensures
        grow(acc, s) == acc,
{
    assert(is_space(s[0]));
    assert(trim_start_idx(s, 1) == 1);
    assert(trim_start_idx(s, 0) == 1);
    assert(trim_end_idx(s, 0) == 0);
    assert(trim_end_idx(s, 1) == 0);
    assert(trim_spec(s).len() == 0);
}

/// The empty fragment grows nothing.
proof fn lemma_grow_empty(acc: Seq<char>, s: Seq<char>)
    requires
        s.len() == 0,
    ensures
        grow(acc, s) == acc,
{
    assert(trim_start_idx(s, 0) == 0);
    assert(trim_end_idx(s, 0) == 0);
}

/// A token character is never structural: it cannot end a tag run, open or
/// close a label, or separate anything.
proof fn lemma_token_char_classes(c: char)
    requires
        crate::tags::is_token_char(c),
    ensures
        tag_run_char(c),
        c != ']',
        c != '[',
        c != '=',
        !is_space(c),
{
    assert('=' as u32 == 61);
    assert('[' as u32 == 91);
    assert(']' as u32 == 93);
    assert(' ' as u32 == 32);
    assert('\t' as u32 == 9);
}

/// The tag scan over the rendering of `ts`, entered with the fragment
/// anchor at the current position, collects exactly `ts`.
proof fn lemma_scan_tags_tail(
    s: Seq<char>,
    i: int,
    acc: Seq<char>,
    toks: Seq<Seq<char>>,
    ts: Seq<Seq<char>>,
)
    requires
        0 <= i <= s.len(),
        s.subrange(i, s.len() as int) == crate::tags::render_tags_seq(ts),
        forall|k: int| 0 <= k < ts.len() ==> crate::tags::valid_token(#[trigger] ts[k]),
    ensures
        scan_tags(s, i, i, acc, toks) == (acc, toks + ts),
    decreases ts.len(),
{
    let len = s.len() as int;
    if ts.len() == 0 {
        assert(s.subrange(i, len).len() == 0);
        assert(i == len);
        lemma_grow_empty(acc, s.subrange(i, len));
        assert(toks + ts =~= toks);
    } else {
        let t0 = ts[0];
        let rest = ts.drop_first();
        crate::tags::lemma_render_tags_front(ts);
        let rr = crate::tags::render_tags_seq(rest);
        assert(s.subrange(i, len) == seq![' ', '='] + t0 + rr);
        let e = i + 2 + t0.len();
        assert(e + rr.len() == len);
        assert(s.subrange(i, len).len() == 2 + t0.len() + rr.len());
        assert forall|j: int| i + 2 <= j < e implies #[trigger] s[j] == t0[j - i - 2]
            && tag_run_char(s[j]) by {
            assert(s.subrange(i, len)[j - i] == t0[j - i - 2]);
            assert(crate::tags::valid_token(t0));
            lemma_token_char_classes(t0[j - i - 2]);
        }
        assert(s[i + 2] == t0[0]);
        assert(tag_run_char(s[i + 2]));
        assert(s[i] == s.subrange(i, len)[0]);
        assert(s[i] == ' ');
        assert(s[i + 1] == s.subrange(i, len)[1]);
        assert(s[i + 1] == '=');
        assert(t0.len() > 0);
        if rest.len() > 0 {
            crate::tags::lemma_render_tags_front(rest);
            assert(s[e] == s.subrange(i, len)[2 + t0.len() as int]);
            assert(s[e] == ' ');
            assert(!tag_run_char(s[e]));
            lemma_run_end_exact(s, i + 3, e);
        } else {
            assert(rr.len() == 0);
            assert(e == len);
            lemma_run_end_exact(s, i + 3, e);
        }
        // Step over the separating space: no match starts there.
        assert(scan_tags(s, i, i, acc, toks) == scan_tags(s, i + 1, i, acc, toks));
        // The match at the `=`.
        assert(run_end(s, i + 3) == e);
        assert(s.subrange(i, i + 1) =~= seq![' ']);
        lemma_grow_space(acc, s.subrange(i, i + 1));
        assert(s.subrange(i + 2, e) =~= t0);
        assert(scan_tags(s, i + 1, i, acc, toks) == scan_tags(
            s,
            e,
            e,
            grow(acc, s.subrange(i, i + 1)),
            toks.push(s.subrange(i + 2, e)),
        ));
        assert forall|j: int| 0 <= j < rr.len() implies s.subrange(e, len)[j] == rr[j] by {
            assert(s.subrange(e, len)[j] == s[e + j]);
            assert(s[e + j] == s.subrange(i, len)[2 + t0.len() as int + j]);
        }
        assert(s.subrange(e, len) =~= rr);
        lemma_scan_tags_tail(s, e, acc, toks.push(t0), rest);
        assert(toks.push(t0) + rest =~= toks + ts);
    }
}

/// The label scan over the rendering of `ls`, entered with the fragment
/// anchor at the current position, collects exactly `ls`.
proof fn lemma_scan_labels_tail(
    s: Seq<char>,
    i: int,
    acc: Seq<char>,
    toks: Seq<Seq<char>>,
    ls: Seq<Seq<char>>,
)
    requires
        0 <= i <= s.len(),
        s.subrange(i, s.len() as int) == crate::tags::render_labels_seq(ls),
        forall|k: int| 0 <= k < ls.len() ==> crate::tags::valid_token(#[trigger] ls[k]),
    ensures
        scan_labels(s, i, i, acc, toks) == (acc, toks + ls),
    decreases ls.len(),
{
    let len = s.len() as int;
    if ls.len() == 0 {
        assert(s.subrange(i, len).len() == 0);
        assert(i == len);
        lemma_grow_empty(acc, s.subrange(i, len));
        assert(toks + ls =~= toks);
    } else {
        let l0 = ls[0];
        let rest = ls.drop_first();
        crate::tags::lemma_render_labels_front(ls);
        let rr = crate::tags::render_labels_seq(rest);
        assert(s.subrange(i, len) == seq![' ', '['] + l0 + seq![']'] + rr);
        assert(s.subrange(i, len).len() == 3 + l0.len() + rr.len());
        let e = i + 2 + l0.len();
        assert(i + 3 + l0.len() + rr.len() == len);
        assert(e < len);
        assert(s[e] == s.subrange(i, len)[2 + l0.len() as int]);
        assert(s[e] == ']');
        assert forall|j: int| i + 2 <= j < e implies s[j] == l0[j - i - 2] && #[trigger] s[j]
            != ']' by {
            assert(s.subrange(i, len)[j - i] == l0[j - i - 2]);
            assert(crate::tags::valid_token(l0));
            lemma_token_char_classes(l0[j - i - 2]);
        }
        assert(s[i] == s.subrange(i, len)[0]);
        assert(s[i] == ' ');
        assert(s[i + 1] == s.subrange(i, len)[1]);
        assert(s[i + 1] == '[');
        assert(l0.len() > 0);
        lemma_close_from_exact(s, i + 2, e);
        // Step over the separating space: no match starts there.
        assert(scan_labels(s, i, i, acc, toks) == scan_labels(s, i + 1, i, acc, toks));
        // The match at the `[`.
        assert(close_from(s, i + 2) == e);
        assert(s.subrange(i, i + 1) =~= seq![' ']);
        lemma_grow_space(acc, s.subrange(i, i + 1));
        assert(s.subrange(i + 2, e) =~= l0);
        assert(scan_labels(s, i + 1, i, acc, toks) == scan_labels(
            s,
            e + 1,
            e + 1,
            grow(acc, s.subrange(i, i + 1)),
            toks.push(s.subrange(i + 2, e)),
        ));
        assert forall|j: int| 0 <= j < rr.len() implies s.subrange(e + 1, len)[j] == rr[j] by {
            assert(s.subrange(e + 1, len)[j] == s[e + 1 + j]);
            assert(s[e + 1 + j] == s.subrange(i, len)[3 + l0.len() as int + j]);
        }
        assert(s.subrange(e + 1, len) =~= rr);
        lemma_scan_labels_tail(s, e + 1, acc, toks.push(l0), rest);
        assert(toks.push(l0) + rest =~= toks + ls);
    }
}

/// A bare name that the text format can carry without ambiguity: a valid
/// account name, none of whose characters are decoration characters, and
/// whose only whitespace is the plain space.
pub open spec fn plain_name(s: Seq<char>) -> bool {
    &&& crate::account::valid_account_name(s)
    &&& (forall|i: int|
        0 <= i < s.len() ==> #[trigger] s[i] != '=' && s[i] != '[' && s[i] != ']' && (is_space(
            s[i],
        ) ==> s[i] == ' '))
}

/// A label rendering holds no `=`, and its last character is `]`.
proof fn lemma_render_labels_chars(ls: Seq<Seq<char>>)
    requires
        forall|k: int| 0 <= k < ls.len() ==> crate::tags::valid_token(#[trigger] ls[k]),
    ensures
        forall|i: int|
            0 <= i < crate::tags::render_labels_seq(ls).len()
                ==> #[trigger] crate::tags::render_labels_seq(ls)[i] != '=',
        ls.len() > 0 ==> crate::tags::render_labels_seq(ls).len() > 0 && crate::tags::render_labels_seq(
            ls,
        ).last() == ']',
    decreases ls.len(),
{
    if ls.len() > 0 {
        let dl = ls.drop_last();
        lemma_render_labels_chars(dl);
        let rd = crate::tags::render_labels_seq(dl);
        let r = crate::tags::render_labels_seq(ls);
        assert(r == rd + seq![' ', '['] + ls.last() + seq![']']);
        assert forall|i: int| 0 <= i < r.len() implies #[trigger] r[i] != '=' by {
            if i < rd.len() {
                assert(r[i] == rd[i]);
            } else if i < rd.len() + 2 {
                assert(r[i] == ' ' || r[i] == '[');
            } else if i < r.len() - 1 {
                assert(r[i] == ls.last()[i - rd.len() - 2]);
                lemma_token_char_classes(ls.last()[i - rd.len() - 2]);
            } else {
                assert(r[i] == ']');
            }
        }
        assert(r[r.len() - 1] == ']');
    }
}

/// Law (round trip of one serialized line): for a plain bare name and
/// valid label and tag tokens, scanning the rendered line recovers
/// exactly the tags, then exactly the labels and the bare name.
pub proof fn lemma_line_round_trip(
    name: Seq<char>,
    labels: Seq<Seq<char>>,
    tags: Seq<Seq<char>>,
)
    requires
        plain_name(name),
        forall|k: int| 0 <= k < labels.len() ==> crate::tags::valid_token(#[trigger] labels[k]),
        forall|k: int| 0 <= k < tags.len() ==> crate::tags::valid_token(#[trigger] tags[k]),
    ensures
        ({
            let line = name + crate::tags::render_labels_seq(labels)
                + crate::tags::render_tags_seq(tags);
            let pfx = name + crate::tags::render_labels_seq(labels);
            scan_tags(line, 0, 0, Seq::empty(), Seq::empty()) == (pfx, tags) && scan_labels(
                pfx,
                0,
                0,
                Seq::empty(),
                Seq::empty(),
            ) == (name, labels)
        }),
{
    let rl = crate::tags::render_labels_seq(labels);
    let rt = crate::tags::render_tags_seq(tags);
    let pfx = name + rl;
    let line = pfx + rt;
    lemma_render_labels_chars(labels);
    assert(name + rl + rt =~= pfx + rt);
    // The prefix is non-empty, clean at both ends, and free of `=`.
    assert(pfx[0] == name[0]);
    assert(!is_space(pfx[0]));
    if labels.len() > 0 {
        assert(pfx.last() == rl.last());
        assert(pfx.last() == ']');
    } else {
        assert(rl.len() == 0);
        assert(pfx.last() == name.last());
    }
    assert(!is_space(pfx.last()));
    assert forall|i: int| 0 <= i < pfx.len() implies #[trigger] pfx[i] != '=' by {
        if i < name.len() {
            assert(pfx[i] == name[i]);
        } else {
            assert(pfx[i] == rl[i - name.len()]);
        }
    }
    // The tag scan: skip the prefix, then collect the tags.
    lemma_scan_round(line, pfx, rt, tags);
    assert(scan_tags(line, 0, 0, Seq::empty(), Seq::empty()) == (pfx, tags));
    // The label scan over the prefix: skip the name, then collect the
    // labels.
    lemma_scan_labels_round(pfx, name, rl, labels);
    assert(scan_labels(pfx, 0, 0, Seq::empty(), Seq::empty()) == (name, labels));
}

/// The tag scan over a clean `=`-free prefix followed by a tag rendering
/// yields the prefix as the name and the tags as the tokens.
proof fn lemma_scan_round(s: Seq<char>, pfx: Seq<char>, rt: Seq<char>, ts: Seq<Seq<char>>)
    requires
        s == pfx + rt,
        rt == crate::tags::render_tags_seq(ts),
        pfx.len() > 0,
        !is_space(pfx[0]),
        !is_space(pfx[pfx.len() - 1]),
        forall|i: int| 0 <= i < pfx.len() ==> #[trigger] pfx[i] != '=',
        forall|k: int| 0 <= k < ts.len() ==> crate::tags::valid_token(#[trigger] ts[k]),
    ensures
        scan_tags(s, 0, 0, Seq::empty(), Seq::empty()) == (pfx, ts),
{
    let p = pfx.len() as int;
    let len = s.len() as int;
    assert(forall|j: int| 0 <= j < p ==> s[j] == pfx[j]);
    lemma_scan_tags_skip(s, 0, p, 0, Seq::empty(), Seq::empty());
    if ts.len() == 0 {
        assert(rt.len() == 0);
        assert(p == len);
        assert(s.subrange(0, len) =~= pfx);
        lemma_trim_clean(pfx);
        assert(scan_tags(s, p, 0, Seq::empty(), Seq::empty()) == (
            grow(Seq::empty(), s.subrange(0, len)),
            Seq::<Seq<char>>::empty(),
        ));
        assert(grow(Seq::empty(), pfx) == trim_spec(pfx));
        assert(ts =~= Seq::<Seq<char>>::empty());
    } else {
        let t0 = ts[0];
        let rest = ts.drop_first();
        crate::tags::lemma_render_tags_front(ts);
        let rr = crate::tags::render_tags_seq(rest);
        assert(rt == seq![' ', '='] + t0 + rr);
        assert(rt.len() == 2 + t0.len() + rr.len());
        let e = p + 2 + t0.len();
        assert(e <= len);
        assert(s[p] == rt[0]);
        assert(s[p] == ' ');
        assert(s[p + 1] == rt[1]);
        assert(s[p + 1] == '=');
        assert forall|j: int| p + 2 <= j < e implies #[trigger] s[j] == t0[j - p - 2]
            && tag_run_char(s[j]) by {
            assert(s[j] == rt[j - p]);
            assert(rt[j - p] == t0[j - p - 2]);
            lemma_token_char_classes(t0[j - p - 2]);
        }
        assert(t0.len() > 0);
        assert(s[p + 2] == t0[0]);
        assert(tag_run_char(s[p + 2]));
        if rest.len() > 0 {
            crate::tags::lemma_render_tags_front(rest);
            assert(s[e] == rt[e - p]);
            assert(rt[e - p] == rr[0]);
            assert(s[e] == ' ');
            assert(!tag_run_char(s[e]));
            lemma_run_end_exact(s, p + 3, e);
        } else {
            assert(e == len);
            lemma_run_end_exact(s, p + 3, e);
        }
        // No match starts at the space.
        assert(scan_tags(s, p, 0, Seq::empty(), Seq::empty()) == scan_tags(
            s,
            p + 1,
            0,
            Seq::empty(),
            Seq::empty(),
        ));
        // The match at the `=`: the fragment is the prefix plus the space.
        assert(run_end(s, p + 3) == e);
        assert(s.subrange(0, p + 1) =~= pfx + seq![' ']);
        lemma_trim_clean_trailing(s.subrange(0, p + 1), pfx);
        assert(grow(Seq::empty(), s.subrange(0, p + 1)) == pfx);
        assert(s.subrange(p + 2, e) =~= t0);
        assert(scan_tags(s, p + 1, 0, Seq::empty(), Seq::empty()) == scan_tags(
            s,
            e,
            e,
            pfx,
            Seq::empty().push(t0),
        ));
        assert forall|j: int| 0 <= j < rr.len() implies s.subrange(e, len)[j] == rr[j] by {
            assert(s.subrange(e, len)[j] == s[e + j]);
            assert(s[e + j] == rt[e - p + j]);
            assert(rt[2 + t0.len() as int + j] == rr[j]);
        }
        assert(s.subrange(e, len) =~= rr);
        lemma_scan_tags_tail(s, e, pfx, Seq::empty().push(t0), rest);
        assert(Seq::empty().push(t0) + rest =~= ts);
    }
}

/// The label scan over a clean `[`-free name followed by a label
/// rendering yields the name and the labels.
proof fn lemma_scan_labels_round(s: Seq<char>, name: Seq<char>, rl: Seq<char>, ls: Seq<Seq<char>>)
    requires
        s == name + rl,
        rl == crate::tags::render_labels_seq(ls),
        name.len() > 0,
        !is_space(name[0]),
        !is_space(name[name.len() - 1]),
        forall|i: int| 0 <= i < name.len() ==> #[trigger] name[i] != '[',
        forall|k: int| 0 <= k < ls.len() ==> crate::tags::valid_token(#[trigger] ls[k]),
    ensures
        scan_labels(s, 0, 0, Seq::empty(), Seq::empty()) == (name, ls),
{
    let p = name.len() as int;
    let len = s.len() as int;
    assert(forall|j: int| 0 <= j < p ==> s[j] == name[j]);
    lemma_scan_labels_skip(s, 0, p, 0, Seq::empty(), Seq::empty());
    if ls.len() == 0 {
        assert(rl.len() == 0);
        assert(p == len);
        assert(s.subrange(0, len) =~= name);
        lemma_trim_clean(name);
        assert(scan_labels(s, p, 0, Seq::empty(), Seq::empty()) == (
            grow(Seq::empty(), s.subrange(0, len)),
            Seq::<Seq<char>>::empty(),
        ));
        assert(grow(Seq::empty(), name) == trim_spec(name));
        assert(ls =~= Seq::<Seq<char>>::empty());
    } else {
        let l0 = ls[0];
        let rest = ls.drop_first();
        crate::tags::lemma_render_labels_front(ls);
        let rr = crate::tags::render_labels_seq(rest);
        assert(rl == seq![' ', '['] + l0 + seq![']'] + rr);
        assert(rl.len() == 3 + l0.len() + rr.len());
        let e = p + 2 + l0.len();
        assert(e < len);
        assert(s[p] == rl[0]);
        assert(s[p] == ' ');
        assert(s[p + 1] == rl[1]);
        assert(s[p + 1] == '[');
        assert(s[e] == rl[e - p]);
        assert(s[e] == ']');
        assert forall|j: int| p + 2 <= j < e implies #[trigger] s[j] == l0[j - p - 2] && s[j]
            != ']' by {
            assert(s[j] == rl[j - p]);
            assert(rl[j - p] == l0[j - p - 2]);
            lemma_token_char_classes(l0[j - p - 2]);
        }
        assert(l0.len() > 0);
        lemma_close_from_exact(s, p + 2, e);
        // No match starts at the space.
        assert(scan_labels(s, p, 0, Seq::empty(), Seq::empty()) == scan_labels(
            s,
            p + 1,
            0,
            Seq::empty(),
            Seq::empty(),
        ));
        // The match at the `[`: the fragment is the name plus the space.
        assert(close_from(s, p + 2) == e);
        assert(s.subrange(0, p + 1) =~= name + seq![' ']);
        lemma_trim_clean_trailing(s.subrange(0, p + 1), name);
        assert(grow(Seq::empty(), s.subrange(0, p + 1)) == name);
        assert(s.subrange(p + 2, e) =~= l0);
        assert(scan_labels(s, p + 1, 0, Seq::empty(), Seq::empty()) == scan_labels(
            s,
            e + 1,
            e + 1,
            name,
            Seq::empty().push(l0),
        ));
        assert forall|j: int| 0 <= j < rr.len() implies s.subrange(e + 1, len)[j] == rr[j] by {
            assert(s.subrange(e + 1, len)[j] == s[e + 1 + j]);
            assert(s[e + 1 + j] == rl[e + 1 - p + j]);
            assert(rl[3 + l0.len() as int + j] == rr[j]);
        }
        assert(s.subrange(e + 1, len) =~= rr);
        lemma_scan_labels_tail(s, e + 1, name, Seq::empty().push(l0), rest);
        assert(Seq::empty().push(l0) + rest =~= ls);
    }
}

/// Whether `p` is a prefix of `s`.
pub open spec fn is_prefix_of(p: Seq<char>, s: Seq<char>) -> bool {
    p.len() <= s.len() && s.subrange(0, p.len() as int) == p
}

/// Whether the string `p` is a prefix of the string `s`.
pub fn str_is_prefix(p: &str, s: &str) -> (r: bool)
    ensures
        r == is_prefix_of(p@, s@),
{
    let np = p.unicode_len();
    let ns = s.unicode_len();
    if np > ns {
        return false;
    }
    let mut i: usize = 0;
    while i < np
        invariant
            i <= np <= ns,
            np == p@.len(),
            ns == s@.len(),
            forall|k: int| 0 <= k < i ==> p@[k] == s@[k],
        decreases np - i,
    {
        if p.get_char(i) != s.get_char(i) {
            proof {
                assert(s@.subrange(0, np as int)[i as int] == s@[i as int]);
            }
            return false;
        }
        i += 1;
    }
    proof {
        assert(s@.subrange(0, np as int) =~= p@);
    }
    true
}

/// An open indentation level: the indent string of the line that opened
/// it, and the account that line added.
pub open spec fn stack_views(s: Seq<(String, usize)>) -> Seq<(Seq<char>, int)> {
    s.map_values(|p: (String, usize)| (p.0@, p.1 as int))
}

/// Pops every level whose indent has the new line's indent as a prefix:
/// what remains is the chain of ancestors the new line nests under.
pub open spec fn pop_stack(
    st: Seq<(Seq<char>, int)>,
    indent: Seq<char>,
) -> Seq<(Seq<char>, int)>
    decreases st.len(),
{
    if st.len() > 0 && is_prefix_of(indent, st.last().0) {
        pop_stack(st.drop_last(), indent)
    } else {
        st
    }
}

/// What one input line does to the chart and the indentation stack.
/// Comment and blank lines change nothing.  Any other line must nest
/// properly; its tags, labels and bare name are extracted, and the account
/// is added at the depth its indent selects.
pub open spec fn parse_step(
    c: ChartView,
    st: Seq<(Seq<char>, int)>,
    line: Seq<char>,
) -> Result<(ChartView, Seq<(Seq<char>, int)>), ChartErrorView> {
    let il = trim_start_idx(line, 0);
    let text = line.subrange(il, line.len() as int);
    let indent = line.subrange(0, il);
    if text.len() == 0 || text[0] == '#' {
        Ok((c, st))
    } else {
        let st1 = pop_stack(st, indent);
        let ok_indent = if st1.len() == 0 {
            indent.len() == 0
        } else {
            is_prefix_of(st1.last().0, indent)
        };
        if !ok_indent {
            Err(ChartErrorView::BadIndent)
        } else {
            let scanned_tags = scan_tags(text, 0, 0, Seq::empty(), Seq::empty());
            let scanned_labels = scan_labels(scanned_tags.0, 0, 0, Seq::empty(), Seq::empty());
            let parent = if st1.len() == 0 {
                None
            } else {
                Some(st1.last().1)
            };
            match add_outcome(c, parent, scanned_labels.0, scanned_labels.1, scanned_tags.1) {
                Ok(c2) => Ok((c2, st1.push((indent, c.accounts.len() as int)))),
                Err(e) => Err(e),
            }
        }
    }
}

/// The result of folding the parser over a line sequence: the chart and
/// stack reached, and the first error with its 1-based line number, if any.
pub struct ParseOutcome {
    pub chart: ChartView,
    pub stack: Seq<(Seq<char>, int)>,
    pub error: Option<(int, ChartErrorView)>,
}

/// Folds [`parse_step`] over the lines from position `k`, stopping at the
/// first error.  The chart keeps everything added before the failing line.
pub open spec fn parse_run(
    c: ChartView,
    st: Seq<(Seq<char>, int)>,
    lines: Seq<Seq<char>>,
    k: int,
) -> ParseOutcome
    decreases lines.len() - k,
{
    if 0 <= k < lines.len() {
        match parse_step(c, st, lines[k]) {
            Ok(next) => parse_run(next.0, next.1, lines, k + 1),
            Err(e) => ParseOutcome { chart: c, stack: st, error: Some((k + 1, e)) },
        }
    } else {
        ParseOutcome { chart: c, stack: st, error: None }
    }
}

/// Extracts every `=token` from the text; returns the remaining bare text
/// and the tokens, as [`scan_tags`] describes.
pub fn extract_tags(text: &str) -> (r: (String, Vec<String>))
    ensures
        ({
            let (nm, toks) = scan_tags(text@, 0, 0, Seq::empty(), Seq::empty());
            r.0@ == nm && seq_views(r.1@) == toks
        }),
{
    let n = text.unicode_len();
    let mut acc = String::new();
    let mut toks: Vec<String> = Vec::new();
    let mut i: usize = 0;
    let mut frag_start: usize = 0;
    proof {
        assert(seq_views(toks@) =~= Seq::<Seq<char>>::empty());
    }
    while i < n
        invariant
            frag_start <= i <= n,
            n == text@.len(),
            scan_tags(text@, 0, 0, Seq::empty(), Seq::empty()) == scan_tags(
                text@,
                i as int,
                frag_start as int,
                acc@,
                seq_views(toks@),
            ),
        decreases n - i,
    {
        let c = text.get_char(i);
        if c == '=' && i + 1 < n && tag_run_char_exec(text.get_char(i + 1)) {
            let end = run_end_exec(text, i + 2);
            proof {
                lemma_run_end_bounds(text@, i + 2);
            }
            let tok = text.substring_char(i + 1, end);
            append_grown(&mut acc, text.substring_char(frag_start, i));
            let ghost old_toks = seq_views(toks@);
            toks.push(String::from_str(tok));
            proof {
                assert(seq_views(toks@) =~= old_toks.push(tok@));
            }
            i = end;
            frag_start = end;
        } else {
            i += 1;
        }
    }
    append_grown(&mut acc, text.substring_char(frag_start, n));
    proof {
        assert(text@.subrange(frag_start as int, n as int) == text@.subrange(
            frag_start as int,
            text@.len() as int,
        ));
    }
    (acc, toks)
}

/// Extracts every `[token]` from the text; returns the remaining bare text
/// and the tokens, as [`scan_labels`] describes.
pub fn extract_labels(text: &str) -> (r: (String, Vec<String>))
    ensures
        ({
            let (nm, toks) = scan_labels(text@, 0, 0, Seq::empty(), Seq::empty());
            r.0@ == nm && seq_views(r.1@) == toks
        }),
{
    let n = text.unicode_len();
    let mut acc = String::new();
    let mut toks: Vec<String> = Vec::new();
    let mut i: usize = 0;
    let mut frag_start: usize = 0;
    proof {
        assert(seq_views(toks@) =~= Seq::<Seq<char>>::empty());
    }
    while i < n
        invariant
            frag_start <= i <= n,
            n == text@.len(),
            scan_labels(text@, 0, 0, Seq::empty(), Seq::empty()) == scan_labels(
                text@,
                i as int,
                frag_start as int,
                acc@,
                seq_views(toks@),
            ),
        decreases n - i,
    {
        let c = text.get_char(i);
        let mut matched = false;
        let mut j: usize = 0;
        if c == '[' {
            j = close_from_exec(text, i + 1);
            if i + 1 < j && j < n {
                matched = true;
            }
        }
        if matched {
            let tok = text.substring_char(i + 1, j);
            append_grown(&mut acc, text.substring_char(frag_start, i));
            let ghost old_toks = seq_views(toks@);
            toks.push(String::from_str(tok));
            proof {
                assert(seq_views(toks@) =~= old_toks.push(tok@));
            }
            i = j + 1;
            frag_start = j + 1;
        } else {
            proof {
                if c == '[' {
                    assert(j as int == close_from(text@, i + 1));
                }
            }
            i += 1;
        }
    }
    append_grown(&mut acc, text.substring_char(frag_start, n));
    proof {
        assert(text@.subrange(frag_start as int, n as int) == text@.subrange(
            frag_start as int,
            text@.len() as int,
        ));
    }
    (acc, toks)
}

/// Popping with an empty indent closes every level.
proof fn lemma_pop_all(st: Seq<(Seq<char>, int)>)
    ensures
        pop_stack(st, Seq::empty()) == Seq::<(Seq<char>, int)>::empty(),
    decreases st.len(),
{
    if st.len() > 0 {
        assert(st.last().0.subrange(0, 0) =~= Seq::<char>::empty());
        assert(is_prefix_of(Seq::empty(), st.last().0));
        lemma_pop_all(st.drop_last());
    }
}

/// Sequences with equal multisets have the same members.
proof fn lemma_perm_members(a: Seq<Seq<char>>, b: Seq<Seq<char>>)
    requires
        a.to_multiset() == b.to_multiset(),
    ensures
        forall|x: Seq<char>| a.contains(x) <==> b.contains(x),
{
    broadcast use vstd::seq_lib::group_to_multiset_ensures;

    assert forall|x: Seq<char>| a.contains(x) <==> b.contains(x) by {
        assert(a.contains(x) <==> a.to_multiset().count(x) > 0);
        assert(b.contains(x) <==> b.to_multiset().count(x) > 0);
    }
}

/// A forest without nesting: every account is a root, every bare name can
/// be serialized and read back, and no account is its own label.
pub open spec fn flat_chart(c: ChartView) -> bool {
    forall|i: int|
        0 <= i < c.accounts.len() ==> (#[trigger] c.accounts[i]).parent is None && plain_name(
            c.accounts[i].name,
        ) && c.accounts[i].name[0] != '#' && !c.accounts[i].labels.contains(c.accounts[i].name)
}

/// In a flat chart an account has no children, its full path is its bare
/// name, and its aliases are its labels plus its bare name.
proof fn lemma_flat_account(c: ChartView, i: int)
    requires
        chart_wf(c),
        flat_chart(c),
        0 <= i < c.accounts.len(),
    ensures
        c.accounts[i].children.len() == 0,
        crate::account::full_path_of(c.accounts, i) == c.accounts[i].name,
        crate::account::alias_seq_of(c.accounts, i) == c.accounts[i].labels.push(
            c.accounts[i].name,
        ),
{
    assert(crate::account::account_wf(c, i));
    if c.accounts[i].children.len() > 0 {
        let ch = c.accounts[i].children[0];
        assert(c.accounts[ch].parent == Some(i));
    }
}

/// In a well-formed flat chart, an alias identifies its account: two
/// accounts sharing one are the same.
proof fn lemma_flat_alias_shared(c: ChartView, i: int, j: int, x: Seq<char>)
    requires
        chart_wf(c),
        flat_chart(c),
        0 <= i < c.accounts.len(),
        0 <= j < c.accounts.len(),
        c.accounts[i].labels.contains(x) || x == c.accounts[i].name,
        c.accounts[j].labels.contains(x) || x == c.accounts[j].name,
    ensures
        i == j,
{
    lemma_flat_account(c, i);
    lemma_flat_account(c, j);
    let ai = crate::account::alias_seq_of(c.accounts, i);
    let aj = crate::account::alias_seq_of(c.accounts, j);
    if c.accounts[i].labels.contains(x) {
        let t = choose|t: int|
            0 <= t < c.accounts[i].labels.len() && c.accounts[i].labels[t] == x;
        assert(ai[t] == x);
        assert(c.index[ai[t]] as int == i);
    } else {
        assert(ai[ai.len() - 1] == x);
        assert(c.index[ai[ai.len() - 1]] as int == i);
    }
    if c.accounts[j].labels.contains(x) {
        let t = choose|t: int|
            0 <= t < c.accounts[j].labels.len() && c.accounts[j].labels[t] == x;
        assert(aj[t] == x);
        assert(c.index[aj[t]] as int == j);
    } else {
        assert(aj[aj.len() - 1] == x);
        assert(c.index[aj[aj.len() - 1]] as int == j);
    }
}

/// What rebuilding a flat chart achieves for the first `k` accounts: the
/// same bare names, no nesting, the same label and tag sets, and an index
/// covering exactly the aliases seen so far.
pub open spec fn rebuilt_upto(c: ChartView, d: ChartView, k: int) -> bool {
    &&& d.accounts.len() == k
    &&& (forall|j: int|
        0 <= j < k ==> (#[trigger] d.accounts[j]).name == c.accounts[j].name
            && d.accounts[j].parent is None)
    &&& (forall|j: int, x: Seq<char>|
        0 <= j < k ==> ((#[trigger] d.accounts[j].labels.contains(x))
            <==> c.accounts[j].labels.contains(x)))
    &&& (forall|j: int, x: Seq<char>|
        0 <= j < k ==> ((#[trigger] d.accounts[j].tags.contains(x))
            <==> c.accounts[j].tags.contains(x)))
    &&& (forall|x: Seq<char>|
        #[trigger] d.index.contains_key(x) <==> exists|j: int|
            0 <= j < k && ((#[trigger] c.accounts[j]).labels.contains(x) || x
                == c.accounts[j].name))
}

/// A chart rebuilt whole: every account by the same bare name — which,
/// with no nesting, is its full path — with the same label and tag sets.
pub open spec fn rebuilt(c: ChartView, d: ChartView) -> bool {
    rebuilt_upto(c, d, c.accounts.len() as int)
}

/// One line of a flat chart's serialization adds the next account back.
proof fn lemma_flat_step(
    c: ChartView,
    d: ChartView,
    st: Seq<(Seq<char>, int)>,
    k: int,
    line: Seq<char>,
)
    requires
        chart_wf(c),
        flat_chart(c),
        0 <= k < c.accounts.len(),
        rebuilt_upto(c, d, k),
        crate::account::line_for(c, k, line),
    ensures
        parse_step(d, st, line) matches Ok(next) && rebuilt_upto(c, next.0, k + 1),
{
    let a = c.accounts[k];
    lemma_flat_account(c, k);
    assert(crate::account::account_wf(c, k));
    let (pl, pt) = choose|pl: Seq<Seq<char>>, pt: Seq<Seq<char>>|
        pl.to_multiset() == c.accounts[k].labels.to_multiset() && crate::tags::natural_sorted(pl)
            && pt.to_multiset() == c.accounts[k].tags.to_multiset()
            && crate::tags::natural_sorted(pt) && line == crate::account::full_path_of(
            c.accounts,
            k,
        ) + crate::tags::render_labels_seq(pl) + crate::tags::render_tags_seq(pt);
    lemma_perm_members(pl, a.labels);
    lemma_perm_members(pt, a.tags);
    let name = a.name;
    let rl = crate::tags::render_labels_seq(pl);
    let rt = crate::tags::render_tags_seq(pt);
    assert(line == name + rl + rt);
    assert forall|t: int| 0 <= t < pl.len() implies crate::tags::valid_token(
        #[trigger] pl[t],
    ) by {
        assert(pl.contains(pl[t]));
        assert(a.labels.contains(pl[t]));
        let u = choose|u: int| 0 <= u < a.labels.len() && a.labels[u] == pl[t];
        assert(crate::tags::valid_token(a.labels[u]));
    }
    assert forall|t: int| 0 <= t < pt.len() implies crate::tags::valid_token(
        #[trigger] pt[t],
    ) by {
        assert(pt.contains(pt[t]));
        assert(a.tags.contains(pt[t]));
        let u = choose|u: int| 0 <= u < a.tags.len() && a.tags[u] == pt[t];
        assert(crate::tags::valid_token(a.tags[u]));
    }
    // The line is a content line with an empty indent.
    assert(plain_name(name));
    assert(name.len() > 0);
    assert(line[0] == name[0]);
    assert(!is_space(line[0]));
    assert(trim_start_idx(line, 0) == 0);
    let text = line.subrange(0, line.len() as int);
    assert(text =~= line);
    let indent = line.subrange(0, 0);
    assert(indent =~= Seq::<char>::empty());
    assert(text[0] != '#');
    lemma_pop_all(st);
    assert(pop_stack(st, indent) == Seq::<(Seq<char>, int)>::empty());
    // The scans recover the tags, the labels, and the bare name.
    lemma_line_round_trip(name, pl, pt);
    let pfx = name + rl;
    assert(scan_tags(text, 0, 0, Seq::empty(), Seq::empty()) == (pfx, pt));
    assert(scan_labels(pfx, 0, 0, Seq::empty(), Seq::empty()) == (name, pl));
    // Adding the account succeeds: names and labels are valid, and no
    // alias collides.
    let lv = crate::tags::dedup_first(pl);
    let tv = crate::tags::dedup_first(pt);
    crate::tags::lemma_dedup_first(pl);
    crate::tags::lemma_dedup_first(pt);
    crate::tags::lemma_first_invalid_dedup_none(pl);
    crate::tags::lemma_first_invalid_dedup_none(pt);
    let al = crate::account::cand_aliases(d.accounts, None, name, lv);
    assert(al == lv.push(name));
    assert(al[al.len() - 1] == name);
    assert forall|t: int| 0 <= t < al.len() implies !crate::account::collision_at(
        d.index,
        al,
        t,
    ) by {
        if t < lv.len() {
            assert(al[t] == lv[t]);
            assert(lv.contains(al[t]));
            assert(pl.contains(al[t]));
            assert(a.labels.contains(al[t]));
        }
        if d.index.contains_key(al[t]) {
            let j = choose|j: int|
                0 <= j < k && ((#[trigger] c.accounts[j]).labels.contains(al[t]) || al[t]
                    == c.accounts[j].name);
            lemma_flat_alias_shared(c, j, k, al[t]);
        }
        if al.take(t).contains(al[t]) {
            let u = choose|u: int| 0 <= u < t && al.take(t)[u] == al[t];
            assert(al[u] == al[t]);
            if t < lv.len() {
                assert(lv[u] == lv[t]);
            } else {
                assert(al[u] == lv[u]);
                assert(lv.contains(name));
                assert(pl.contains(name));
                assert(a.labels.contains(name));
            }
        }
    }
    crate::account::lemma_first_collision_none(d.index, al);
    let c2 = crate::account::with_new_account(d, None, name, lv, tv);
    assert(add_outcome(d, None, name, pl, pt) == Ok::<ChartView, ChartErrorView>(c2));
    match parse_step(d, st, line) {
        Ok(next) => {
            assert(next.0 == c2);
            // The rebuilt prefix extends by one account.
            assert(c2.accounts.len() == k + 1);
            assert(c2.accounts[k as int].name == name);
            assert(c2.accounts[k as int].parent is None);
            assert(c2.accounts[k as int].labels == lv);
            assert(c2.accounts[k as int].tags == tv);
            assert(forall|j: int| 0 <= j < k ==> c2.accounts[j] == d.accounts[j]);
            assert forall|x: Seq<char>| #[trigger] c2.index.contains_key(x) <==> exists|j: int|
                0 <= j < k + 1 && ((#[trigger] c.accounts[j]).labels.contains(x) || x
                    == c.accounts[j].name) by {
                crate::account::lemma_index_with(d.index, al, d.accounts.len() as usize);
                if c2.index.contains_key(x) {
                    if d.index.contains_key(x) {
                        let j = choose|j: int|
                            0 <= j < k && ((#[trigger] c.accounts[j]).labels.contains(x) || x
                                == c.accounts[j].name);
                        assert(0 <= j < k + 1 && (c.accounts[j].labels.contains(x) || x
                            == c.accounts[j].name));
                    } else {
                        assert(al.contains(x));
                        let t = choose|t: int| 0 <= t < al.len() && al[t] == x;
                        if t < lv.len() {
                            assert(lv.contains(x));
                            assert(pl.contains(x));
                            assert(c.accounts[k as int].labels.contains(x));
                        } else {
                            assert(x == name);
                        }
                    }
                } else {
                    if exists|j: int|
                        0 <= j < k + 1 && ((#[trigger] c.accounts[j]).labels.contains(x) || x
                            == c.accounts[j].name) {
                        let j = choose|j: int|
                            0 <= j < k + 1 && ((#[trigger] c.accounts[j]).labels.contains(x)
                                || x == c.accounts[j].name);
                        if j < k {
                            assert(d.index.contains_key(x));
                        } else {
                            if c.accounts[k as int].labels.contains(x) {
                                assert(pl.contains(x));
                                assert(lv.contains(x));
                                let t = choose|t: int| 0 <= t < lv.len() && lv[t] == x;
                                assert(al[t] == x);
                                assert(al.contains(x));
                            } else {
                                assert(al[al.len() - 1] == x);
                                assert(al.contains(x));
                            }
                            assert(c2.index.contains_key(x));
                        }
                    }
                }
            }
            assert(rebuilt_upto(c, next.0, k + 1));
        },
        Err(_) => {
            assert(parse_step(d, st, line) is Ok);
        },
    }
}

/// Folding the parser over a flat chart's serialized lines rebuilds the
/// whole chart without error.
proof fn lemma_flat_run(
    c: ChartView,
    lines: Seq<Seq<char>>,
    d: ChartView,
    st: Seq<(Seq<char>, int)>,
    k: int,
)
    requires
        chart_wf(c),
        flat_chart(c),
        lines.len() == c.accounts.len(),
        forall|t: int|
            0 <= t < lines.len() ==> crate::account::line_for(c, t, #[trigger] lines[t]),
        0 <= k <= lines.len(),
        rebuilt_upto(c, d, k),
    ensures
        parse_run(d, st, lines, k).error is None,
        rebuilt(c, parse_run(d, st, lines, k).chart),
    decreases lines.len() - k,
{
    if k < lines.len() {
        lemma_flat_step(c, d, st, k, lines[k]);
        match parse_step(d, st, lines[k]) {
            Ok(next) => {
                lemma_flat_run(c, lines, next.0, next.1, k + 1);
            },
            Err(e) => {
                assert(parse_step(d, st, lines[k]) is Ok);
            },
        }
    }
}

/// The roots of a well-formed chart come in ascending positions.
proof fn lemma_top_level_ge(c: ChartView, t: int)
    requires
        chart_wf(c),
        0 <= t < c.top_level.len(),
    ensures
        c.top_level[t] >= t,
    decreases t,
{
    if t > 0 {
        lemma_top_level_ge(c, t - 1);
    }
}

/// In a flat chart the root list is the identity: account `j` stands at
/// position `j`.
proof fn lemma_flat_top_level(c: ChartView, j: int)
    requires
        chart_wf(c),
        flat_chart(c),
        0 <= j < c.accounts.len(),
    ensures
        j < c.top_level.len(),
        c.top_level[j] == j,
    decreases j,
{
    if j > 0 {
        lemma_flat_top_level(c, j - 1);
    }
    assert(c.accounts[j].parent is None);
    assert(c.top_level.contains(j));
    let p = choose|p: int| 0 <= p < c.top_level.len() && c.top_level[p] == j;
    lemma_top_level_ge(c, p);
    if j > 0 {
        if p < j {
            if p < j - 1 {
                assert(c.top_level[p] < c.top_level[j - 1]);
            }
        }
        assert(p >= j);
    }
    assert(p <= j);
    assert(p == j);
}

/// In a flat chart the pre-order is the identity over the accounts.
proof fn lemma_flat_preorder_from(c: ChartView, t: int)
    requires
        chart_wf(c),
        flat_chart(c),
        c.top_level.len() == c.accounts.len(),
        forall|j: int| 0 <= j < c.top_level.len() ==> #[trigger] c.top_level[j] == j,
        0 <= t <= c.top_level.len(),
    ensures
        crate::account::preorder_roots(c, t) == Seq::new(
            (c.top_level.len() - t) as nat,
            |i: int| t + i,
        ),
    decreases c.top_level.len() - t,
{
    let n = c.top_level.len() as int;
    if t < n {
        lemma_flat_account(c, t);
        assert(crate::account::preorder_children(c, t, 0) == Seq::<int>::empty());
        assert(crate::account::preorder_node(c, t) =~= seq![t]);
        lemma_flat_preorder_from(c, t + 1);
        assert(crate::account::preorder_roots(c, t) =~= Seq::new(
            (n - t) as nat,
            |i: int| t + i,
        ));
    } else {
        assert(crate::account::preorder_roots(c, t) =~= Seq::new(0nat, |i: int| t + i));
    }
}

/// Law (round trip of a chart of roots): serializing a well-formed flat
/// chart, one line per account, and reading the lines back into an empty
/// chart succeeds and rebuilds every account — the same bare names, which
/// with no nesting are the full paths, and the same label and tag sets,
/// the display order aside.  Nested charts serialize their full paths,
/// which the reader rejects as bare names, so the law is confined to
/// forests of roots with serializable names.
pub proof fn lemma_flat_chart_round_trip(c: ChartView, d0: ChartView, lines: Seq<Seq<char>>)
    requires
        chart_wf(c),
        flat_chart(c),
        d0.accounts == Seq::<crate::account::AccountView>::empty(),
        d0.index == Map::<Seq<char>, usize>::empty(),
        lines.len() == crate::account::preorder(c).len(),
        forall|t: int|
            0 <= t < lines.len() ==> 0 <= crate::account::preorder(c)[t] < c.accounts.len()
                && crate::account::line_for(
                c,
                crate::account::preorder(c)[t],
                #[trigger] lines[t],
            ),
    ensures
        parse_run(d0, Seq::empty(), lines, 0).error is None,
        rebuilt(c, parse_run(d0, Seq::empty(), lines, 0).chart),
{
    let n = c.accounts.len() as int;
    // The root list, and with it the pre-order, is the identity.
    if c.top_level.len() > 0 {
        assert(0 <= c.top_level[0] < n);
    }
    assert forall|j: int| 0 <= j < n implies j < c.top_level.len() && #[trigger] c.top_level[j]
        == j by {
        lemma_flat_top_level(c, j);
    }
    if n > 0 {
        assert(c.top_level[n - 1] == n - 1);
        assert(c.top_level.len() >= n);
    }
    if c.top_level.len() > n {
        lemma_top_level_ge(c, n);
        assert(c.top_level[n] < n);
    }
    assert(c.top_level.len() == n);
    lemma_flat_preorder_from(c, 0);
    assert(crate::account::preorder(c).len() == n);
    assert forall|t: int| 0 <= t < n implies crate::account::line_for(
        c,
        t,
        #[trigger] lines[t],
    ) by {
        assert(crate::account::preorder(c)[t] == t);
    }
    assert(rebuilt_upto(c, d0, 0));
    lemma_flat_run(c, lines, d0, Seq::empty(), 0);
}

impl Chart {
    /// Consumes one input line, as [`parse_step`] describes.
    fn read_line(&mut self, stack: &mut Vec<(String, usize)>, line: &str) -> (r: Result<
        (),
        ChartError,
    >)
        requires
            old(self).wf(),
            old(self)@.accounts.len() < usize::MAX - 1,
            forall|t: int|
                0 <= t < old(stack)@.len() ==> (#[trigger] old(stack)@[t]).1
                    < old(self)@.accounts.len(),
        ensures
            final(self).wf(),
            final(self)@.accounts.len() <= old(self)@.accounts.len() + 1,
            forall|t: int|
                0 <= t < final(stack)@.len() ==> (#[trigger] final(stack)@[t]).1
                    < final(self)@.accounts.len(),
            match parse_step(old(self)@, stack_views(old(stack)@), line@) {
                Ok(next) => r is Ok && final(self)@ == next.0 && stack_views(final(stack)@)
                    == next.1,
                Err(ev) => r matches Err(e) && chart_error_matches(e, ev) && final(self)@
                    == old(self)@,
            },
    {
        let ghost c0 = self@;
        let ghost st0 = stack_views(stack@);
        let n = line.unicode_len();
        let il = trim_start_idx_exec(line, 0);
        let text = line.substring_char(il, n);
        let indent = line.substring_char(0, il);
        if text.unicode_len() == 0 || text.get_char(0) == '#' {
            return Ok(());
        }
        // Close the levels this line's indent does not nest under.
        while stack.len() > 0 && str_is_prefix(indent, stack[stack.len() - 1].0.as_str())
            invariant
                pop_stack(st0, indent@) == pop_stack(stack_views(stack@), indent@),
                forall|t: int|
                    0 <= t < stack@.len() ==> (#[trigger] stack@[t]).1 < c0.accounts.len(),
                self@ == c0,
            decreases stack@.len(),
        {
            proof {
                let sv = stack_views(stack@);
                assert(sv.last() == (stack@.last().0@, stack@.last().1 as int));
                assert(stack_views(stack@.drop_last()) =~= sv.drop_last());
            }
            stack.pop();
        }
        let ghost st1 = pop_stack(st0, indent@);
        proof {
            assert(st1 == stack_views(stack@));
        }
        let depth = stack.len();
        let ok_indent = if depth == 0 {
            indent.unicode_len() == 0
        } else {
            str_is_prefix(stack[depth - 1].0.as_str(), indent)
        };
        proof {
            if depth > 0 {
                assert(st1.last() == (stack@.last().0@, stack@.last().1 as int));
            }
        }
        if !ok_indent {
            return Err(ChartError::BadIndent);
        }
        let scanned = extract_tags(text);
        let name_text = scanned.0;
        let tag_vec = scanned.1;
        let scanned2 = extract_labels(name_text.as_str());
        let name = scanned2.0;
        let label_vec = scanned2.1;
        // Borrowed views of the token lists, for the chart interface.
        let mut label_refs: Vec<&str> = Vec::new();
        let mut t: usize = 0;
        while t < label_vec.len()
            invariant
                t <= label_vec@.len(),
                str_views(label_refs@) =~= seq_views(label_vec@).take(t as int),
            decreases label_vec@.len() - t,
        {
            let ghost before = str_views(label_refs@);
            label_refs.push(label_vec[t].as_str());
            proof {
                assert(str_views(label_refs@) =~= before.push(label_vec@[t as int]@));
                assert(seq_views(label_vec@).take(t + 1 as int) =~= seq_views(
                    label_vec@,
                ).take(t as int).push(label_vec@[t as int]@));
            }
            t += 1;
        }
        let mut tag_refs: Vec<&str> = Vec::new();
        let mut u: usize = 0;
        while u < tag_vec.len()
            invariant
                u <= tag_vec@.len(),
                str_views(tag_refs@) =~= seq_views(tag_vec@).take(u as int),
            decreases tag_vec@.len() - u,
        {
            let ghost before = str_views(tag_refs@);
            tag_refs.push(tag_vec[u].as_str());
            proof {
                assert(str_views(tag_refs@) =~= before.push(tag_vec@[u as int]@));
                assert(seq_views(tag_vec@).take(u + 1 as int) =~= seq_views(tag_vec@).take(
                    u as int,
                ).push(tag_vec@[u as int]@));
            }
            u += 1;
        }
        proof {
            assert(str_views(label_refs@) =~= seq_views(label_vec@));
            assert(str_views(tag_refs@) =~= seq_views(tag_vec@));
        }
        let added = if depth == 0 {
            self.add_account(None, name.as_str(), label_refs.as_slice(), tag_refs.as_slice())
        } else {
            let parent = stack[depth - 1].1;
            self.add_account(
                Some(parent),
                name.as_str(),
                label_refs.as_slice(),
                tag_refs.as_slice(),
            )
        };
        match added {
            Ok(id) => {
                let ghost st_before = stack_views(stack@);
                stack.push((String::from_str(indent), id));
                proof {
                    assert(stack_views(stack@) =~= st_before.push((indent@, id as int)));
                }
                Ok(())
            },
            Err(e) => Err(e),
        }
    }

    /// Reads a chart from its text lines, as [`parse_run`] describes: the
    /// first malformed line aborts the read with that line's 1-based
    /// number, and the chart keeps the accounts added before it.
    pub fn read_from_lines(&mut self, lines: &Vec<String>) -> (r: Result<(), InputError>)
        requires
            old(self).wf(),
            old(self)@.accounts.len() + lines@.len() < usize::MAX - 1,
            lines@.len() < u32::MAX,
        ensures
            final(self).wf(),
            ({
                let out = parse_run(old(self)@, Seq::empty(), seq_views(lines@), 0);
                final(self)@ == out.chart && match out.error {
                    None => r is Ok,
                    Some(err) => r matches Err(ie) && ie.loc.line_number == err.0
                        && ie.loc.path is None && chart_error_matches(ie.source, err.1),
                }
            }),
    {
        let ghost c0 = self@;
        let ghost lv = seq_views(lines@);
        let mut stack: Vec<(String, usize)> = Vec::new();
        let n = lines.len();
        let mut ln: usize = 0;
        proof {
            assert(stack_views(stack@) =~= Seq::<(Seq<char>, int)>::empty());
        }
        while ln < n
            invariant
                self.wf(),
                ln <= n,
                n == lines@.len(),
                c0 == old(self)@,
                lv == seq_views(lines@),
                n < u32::MAX,
                c0.accounts.len() + n < usize::MAX - 1,
                self@.accounts.len() <= c0.accounts.len() + ln,
                forall|t: int|
                    0 <= t < stack@.len() ==> (#[trigger] stack@[t]).1 < self@.accounts.len(),
                parse_run(c0, Seq::empty(), lv, 0) == parse_run(
                    self@,
                    stack_views(stack@),
                    lv,
                    ln as int,
                ),
            decreases n - ln,
        {
            let ghost pre = self@;
            let ghost st_pre = stack_views(stack@);
            match self.read_line(&mut stack, lines[ln].as_str()) {
                Ok(()) => {
                    proof {
                        assert(lv[ln as int] == lines@[ln as int]@);
                    }
                },
                Err(e) => {
                    proof {
                        assert(lv[ln as int] == lines@[ln as int]@);
                        let out = parse_run(old(self)@, Seq::empty(), seq_views(lines@), 0);
                        assert(out == parse_run(pre, st_pre, lv, ln as int));
                        match parse_step(pre, st_pre, lv[ln as int]) {
                            Ok(next) => {
                                assert(false);
                            },
                            Err(ev) => {
                                assert(out.chart == pre);
                                assert(out.error == Some((ln + 1 as int, ev)));
                                assert(chart_error_matches(e, ev));
                            },
                        }
                    }
                    let loc = InputLoc::new((ln + 1) as u32);
                    return Err(InputError::new(loc, e));
                },
            }
            ln += 1;
        }
        Ok(())
    }
}

} // verus!
