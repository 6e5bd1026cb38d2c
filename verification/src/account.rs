//! The account hierarchy and its multi-key alias index.
//!
//! Accounts live in an arena owned by the [`Chart`]: each account refers to
//! its parent and children by arena index, and a parent always has a smaller
//! index than its children, so the forest grows append-only.  The chart also
//! keeps an index from every alias an account answers to — any combination
//! of ancestor labels or bare names, joined by `:` — to that account, and
//! rejects, as a whole, any insertion that would collide with it.

use vstd::prelude::*;
use vstd::hash_map::StringHashMap;

use crate::money::{
    Currency, Money, MoneyError, MoneyView, money_wf, MAX_SCALE, default_currency,
    default_currency_spec,
};
use crate::tags::{
    Labels, Tags, InvalidLabelError, InvalidTagError, dedup_first, first_invalid, seq_views,
    str_views, valid_token, str_eq, lemma_dedup_first,
};

verus! {

/// The error for an account name that is empty, contains the path
/// separator, a double space, or a leading or trailing space.
#[derive(Debug, Clone, PartialEq, Eq)]
pub struct InvalidAccountNameError {
    pub name: String,
}

/// The error for an alias that is already claimed by an account.
#[derive(Debug, Clone, PartialEq, Eq)]
pub struct DuplicateAccountNameError {
    pub name: String,
}

/// Any error that can arise while an account is added to a chart.
#[derive(Debug, Clone, PartialEq, Eq)]
pub enum ChartError {
    InvalidName(InvalidAccountNameError),
    InvalidLabel(InvalidLabelError),
    InvalidTag(InvalidTagError),
    Duplicate(DuplicateAccountNameError),
    BadIndent,
}

impl ChartError {
    /// The message text of the error.
    pub open spec fn message_chars(&self) -> Seq<char> {
        match self {
            ChartError::InvalidName(e) => "invalid account name: \""@ + e.name@ + "\""@,
            ChartError::InvalidLabel(e) => "invalid label: \""@ + e.name@ + "\""@,
            ChartError::InvalidTag(e) => "invalid tag: \""@ + e.name@ + "\""@,
            ChartError::Duplicate(e) => "duplicate account name: \""@ + e.name@ + "\""@,
            ChartError::BadIndent => "bad indent"@,
        }
    }

    /// Renders the error message, as [`Self::message_chars`] describes.
    pub fn message(&self) -> (r: String)
        ensures
            r@ == self.message_chars(),
    {
        match self {
            ChartError::InvalidName(e) => {
                let mut r = String::from_str("invalid account name: \"");
                r.append(e.name.as_str());
                r.append("\"");
                r
            },
            ChartError::InvalidLabel(e) => {
                let mut r = String::from_str("invalid label: \"");
                r.append(e.name.as_str());
                r.append("\"");
                r
            },
            ChartError::InvalidTag(e) => {
                let mut r = String::from_str("invalid tag: \"");
                r.append(e.name.as_str());
                r.append("\"");
                r
            },
            ChartError::Duplicate(e) => {
                let mut r = String::from_str("duplicate account name: \"");
                r.append(e.name.as_str());
                r.append("\"");
                r
            },
            ChartError::BadIndent => String::from_str("bad indent"),
        }
    }
}

/// The mathematical content of an [`Account`].
#[verifier::ext_equal]
pub struct AccountView {
    pub name: Seq<char>,
    pub currency: Currency,
    pub parent: Option<int>,
    pub children: Seq<int>,
    pub labels: Seq<Seq<char>>,
    pub tags: Seq<Seq<char>>,
}

/// The mathematical content of a [`Chart`].
#[verifier::ext_equal]
pub struct ChartView {
    pub accounts: Seq<AccountView>,
    pub top_level: Seq<int>,
    pub index: Map<Seq<char>, usize>,
}

/// A valid bare account name: non-empty, without the `:` separator, without
/// a double space, and with no leading or trailing space.
pub open spec fn valid_account_name(s: Seq<char>) -> bool {
    &&& s.len() > 0
    &&& (forall|i: int| 0 <= i < s.len() ==> s[i] != ':')
    &&& (forall|i: int| 0 <= i < s.len() - 1 ==> !(#[trigger] s[i] == ' ' && s[i + 1] == ' '))
    &&& s[0] != ' '
    &&& s[s.len() - 1] != ' '
}

/// The colon-joined path of bare names from the root down to account `i`.
pub open spec fn full_path_of(accs: Seq<AccountView>, i: int) -> Seq<char>
    decreases i,
{
    if 0 <= i < accs.len() {
        match accs[i].parent {
            Some(p) => if 0 <= p < i {
                full_path_of(accs, p) + seq![':'] + accs[i].name
            } else {
                accs[i].name
            },
            None => accs[i].name,
        }
    } else {
        Seq::empty()
    }
}

/// Every path in `paths` extended by `:` and the bare name `name`.
pub open spec fn suffix_all(paths: Seq<Seq<char>>, name: Seq<char>) -> Seq<Seq<char>> {
    paths.map_values(|p: Seq<char>| p + seq![':'] + name)
}

/// All aliases account `i` answers to: its labels, and — for a root — its
/// bare name, or — for a child — every parent alias extended by `:` and the
/// bare name.
pub open spec fn alias_seq_of(accs: Seq<AccountView>, i: int) -> Seq<Seq<char>>
    decreases i,
{
    if 0 <= i < accs.len() {
        match accs[i].parent {
            Some(p) => if 0 <= p < i {
                accs[i].labels + suffix_all(alias_seq_of(accs, p), accs[i].name)
            } else {
                accs[i].labels
            },
            None => accs[i].labels.push(accs[i].name),
        }
    } else {
        Seq::empty()
    }
}

/// The aliases a new account would answer to, before it is added.
pub open spec fn cand_aliases(
    accs: Seq<AccountView>,
    parent: Option<int>,
    name: Seq<char>,
    labels: Seq<Seq<char>>,
) -> Seq<Seq<char>> {
    match parent {
        None => labels.push(name),
        Some(p) => labels + suffix_all(alias_seq_of(accs, p), name),
    }
}

/// Well-formedness of one account within a chart.
pub open spec fn account_wf(c: ChartView, i: int) -> bool {
    let a = c.accounts[i];
    &&& valid_account_name(a.name)
    &&& (forall|k: int| 0 <= k < a.labels.len() ==> valid_token(#[trigger] a.labels[k]))
    &&& (forall|k: int, l: int| 0 <= k < l < a.labels.len() ==> a.labels[k] != a.labels[l])
    &&& (forall|k: int| 0 <= k < a.tags.len() ==> valid_token(#[trigger] a.tags[k]))
    &&& (forall|k: int, l: int| 0 <= k < l < a.tags.len() ==> a.tags[k] != a.tags[l])
    &&& (match a.parent {
        Some(p) => 0 <= p < i && c.accounts[p].children.contains(i),
        None => c.top_level.contains(i),
    })
    &&& (forall|k: int|
        0 <= k < a.children.len() ==> i < #[trigger] a.children[k] < c.accounts.len()
            && c.accounts[a.children[k]].parent == Some(i))
    &&& (forall|k: int, l: int| 0 <= k < l < a.children.len() ==> a.children[k] < a.children[l])
}

/// Well-formedness of a chart: a well-formed forest whose index maps every
/// alias of every account to that account.
pub open spec fn chart_wf(c: ChartView) -> bool {
    &&& (forall|i: int| 0 <= i < c.accounts.len() ==> account_wf(c, i))
    &&& (forall|k: int|
        0 <= k < c.top_level.len() ==> 0 <= #[trigger] c.top_level[k] < c.accounts.len()
            && c.accounts[c.top_level[k]].parent is None)
    &&& (forall|k: int, l: int| 0 <= k < l < c.top_level.len() ==> c.top_level[k] < c.top_level[l])
    &&& (forall|i: int|
        0 <= i < c.accounts.len() && c.accounts[i].parent is None ==> c.top_level.contains(i))
    &&& (forall|a: Seq<char>| c.index.contains_key(a) ==> #[trigger] c.index[a] < c.accounts.len())
    &&& (forall|i: int, k: int|
        0 <= i < c.accounts.len() && 0 <= k < alias_seq_of(c.accounts, i).len()
            ==> c.index.contains_key(#[trigger] alias_seq_of(c.accounts, i)[k]) && c.index[
            alias_seq_of(c.accounts, i)[k]] as int == i)
}

/// The view of an optional arena index.
pub open spec fn opt_view(p: Option<usize>) -> Option<int> {
    match p {
        Some(v) => Some(v as int),
        None => None,
    }
}

/// The index after registering every alias in `al` for account `id`.
pub open spec fn index_with(
    m: Map<Seq<char>, usize>,
    al: Seq<Seq<char>>,
    id: usize,
) -> Map<Seq<char>, usize>
    decreases al.len(),
{
    if al.len() == 0 {
        m
    } else {
        index_with(m, al.drop_last(), id).insert(al.last(), id)
    }
}

/// What registering aliases does to the index: the given aliases map to the
/// account, everything else is untouched.
pub proof fn lemma_index_with(m: Map<Seq<char>, usize>, al: Seq<Seq<char>>, id: usize)
    ensures
        forall|x: Seq<char>|
            #[trigger] index_with(m, al, id).contains_key(x) ==> m.contains_key(x) || al.contains(
                x,
            ),
        forall|x: Seq<char>|
            m.contains_key(x) ==> #[trigger] index_with(m, al, id).contains_key(x),
        forall|x: Seq<char>|
            #[trigger] al.contains(x) ==> index_with(m, al, id).contains_key(x) && index_with(
                m,
                al,
                id,
            )[x] == id,
        forall|x: Seq<char>|
            m.contains_key(x) && !al.contains(x) ==> #[trigger] index_with(m, al, id)[x] == m[x],
    decreases al.len(),
{
    if al.len() > 0 {
        lemma_index_with(m, al.drop_last(), id);
        let ds = al.drop_last();
        let inner = index_with(m, ds, id);
        assert(forall|k: int| 0 <= k < ds.len() ==> ds[k] == al[k]);
        assert(al[al.len() - 1] == al.last());
        assert forall|x: Seq<char>| #[trigger] index_with(m, al, id).contains_key(
            x,
        ) implies m.contains_key(x) || al.contains(x) by {
            if x != al.last() {
                assert(inner.contains_key(x));
                if !m.contains_key(x) {
                    assert(ds.contains(x));
                    let k = choose|k: int| 0 <= k < ds.len() && ds[k] == x;
                    assert(al[k] == x);
                }
            }
        }
        assert forall|x: Seq<char>| m.contains_key(x) implies #[trigger] index_with(
            m,
            al,
            id,
        ).contains_key(x) by {
            assert(inner.contains_key(x));
        }
        assert forall|x: Seq<char>| #[trigger] al.contains(x) implies index_with(
            m,
            al,
            id,
        ).contains_key(x) && index_with(m, al, id)[x] == id by {
            if x != al.last() {
                let k = choose|k: int| 0 <= k < al.len() && al[k] == x;
                assert(k < al.len() - 1);
                assert(ds[k] == x);
                assert(ds.contains(x));
                assert(inner.contains_key(x) && inner[x] == id);
            }
        }
        assert forall|x: Seq<char>|
            m.contains_key(x) && !al.contains(x) implies #[trigger] index_with(m, al, id)[x]
            == m[x] by {
            assert(x != al.last());
            if ds.contains(x) {
                let k = choose|k: int| 0 <= k < ds.len() && ds[k] == x;
                assert(al[k] == x);
            }
            assert(inner[x] == m[x]);
        }
    }
}

/// Whether registering alias `k` of `al` would collide with the index or
/// with an earlier alias of the same list.
pub open spec fn collision_at(m: Map<Seq<char>, usize>, al: Seq<Seq<char>>, k: int) -> bool {
    m.contains_key(al[k]) || al.take(k).contains(al[k])
}

/// Whether registering the aliases `al` would collide at all.
pub open spec fn has_collision(m: Map<Seq<char>, usize>, al: Seq<Seq<char>>) -> bool {
    exists|k: int| 0 <= k < al.len() && collision_at(m, al, k)
}

/// The chart after a new account, with the given deduplicated labels and
/// tags, is added under `parent`.
pub open spec fn with_new_account(
    c: ChartView,
    parent: Option<int>,
    name: Seq<char>,
    labels: Seq<Seq<char>>,
    tags: Seq<Seq<char>>,
) -> ChartView {
    let id = c.accounts.len() as int;
    let cand = AccountView {
        name,
        currency: default_currency_spec(),
        parent,
        children: Seq::empty(),
        labels,
        tags,
    };
    let accs = match parent {
        Some(p) => c.accounts.update(
            p,
            AccountView { children: c.accounts[p].children.push(id), ..c.accounts[p] },
        ),
        None => c.accounts,
    };
    ChartView {
        accounts: accs.push(cand),
        top_level: match parent {
            None => c.top_level.push(id),
            Some(_) => c.top_level,
        },
        index: index_with(
            c.index,
            cand_aliases(c.accounts, parent, name, labels),
            c.accounts.len() as usize,
        ),
    }
}

/// Aliases and full paths depend only on names, labels and parents, which
/// adding an account never changes for the accounts already present.
pub proof fn lemma_alias_frame(a1: Seq<AccountView>, a2: Seq<AccountView>, i: int)
    requires
        0 <= i < a1.len(),
        a1.len() <= a2.len(),
        forall|j: int|
            0 <= j < a1.len() ==> (#[trigger] a2[j]).name == a1[j].name && a2[j].labels
                == a1[j].labels && a2[j].parent == a1[j].parent,
    ensures
        alias_seq_of(a2, i) == alias_seq_of(a1, i),
        full_path_of(a2, i) == full_path_of(a1, i),
    decreases i,
{
    match a1[i].parent {
        Some(p) => {
            if 0 <= p < i {
                lemma_alias_frame(a1, a2, p);
            }
        },
        None => {},
    }
}

/// The search for the first collision from position `k` of the alias list.
pub open spec fn first_collision_from(
    m: Map<Seq<char>, usize>,
    al: Seq<Seq<char>>,
    k: int,
) -> Option<Seq<char>>
    decreases al.len() - k,
{
    if 0 <= k < al.len() {
        if collision_at(m, al, k) {
            Some(al[k])
        } else {
            first_collision_from(m, al, k + 1)
        }
    } else {
        None
    }
}

/// The first alias of `al`, in order, that collides with the index or with
/// an earlier alias of the list, if any.
pub open spec fn first_collision(m: Map<Seq<char>, usize>, al: Seq<Seq<char>>) -> Option<
    Seq<char>,
> {
    first_collision_from(m, al, 0)
}

proof fn lemma_first_collision_from_found(
    m: Map<Seq<char>, usize>,
    al: Seq<Seq<char>>,
    j: int,
    k: int,
)
    requires
        0 <= j <= k < al.len(),
        collision_at(m, al, k),
        forall|l: int| j <= l < k ==> !collision_at(m, al, l),
    ensures
        first_collision_from(m, al, j) == Some(al[k]),
    decreases k - j,
{
    if j < k {
        lemma_first_collision_from_found(m, al, j + 1, k);
    }
}

/// When the first collision is at position `k`, the search reports it.
pub proof fn lemma_first_collision_found(m: Map<Seq<char>, usize>, al: Seq<Seq<char>>, k: int)
    requires
        0 <= k < al.len(),
        collision_at(m, al, k),
        forall|l: int| 0 <= l < k ==> !collision_at(m, al, l),
    ensures
        first_collision(m, al) == Some(al[k]),
{
    lemma_first_collision_from_found(m, al, 0, k);
}

proof fn lemma_first_collision_from_none(m: Map<Seq<char>, usize>, al: Seq<Seq<char>>, j: int)
    requires
        0 <= j,
        !has_collision(m, al),
    ensures
        first_collision_from(m, al, j) is None,
    decreases al.len() - j,
{
    if j < al.len() {
        assert(!collision_at(m, al, j));
        lemma_first_collision_from_none(m, al, j + 1);
    }
}

/// Without any collision, the search reports none.
pub proof fn lemma_first_collision_none(m: Map<Seq<char>, usize>, al: Seq<Seq<char>>)
    requires
        !has_collision(m, al),
    ensures
        first_collision(m, al) is None,
{
    lemma_first_collision_from_none(m, al, 0);
}

/// The mathematical content of a [`ChartError`].
pub enum ChartErrorView {
    InvalidName(Seq<char>),
    InvalidLabel(Seq<char>),
    InvalidTag(Seq<char>),
    Duplicate(Seq<char>),
    BadIndent,
}

/// Whether a chart error carries the variant and text a view describes.
pub open spec fn chart_error_matches(e: ChartError, v: ChartErrorView) -> bool {
    match v {
        ChartErrorView::InvalidName(s) => e matches ChartError::InvalidName(x) && x.name@ == s,
        ChartErrorView::InvalidLabel(s) => e matches ChartError::InvalidLabel(x) && x.name@ == s,
        ChartErrorView::InvalidTag(s) => e matches ChartError::InvalidTag(x) && x.name@ == s,
        ChartErrorView::Duplicate(s) => e matches ChartError::Duplicate(x) && x.name@ == s,
        ChartErrorView::BadIndent => e matches ChartError::BadIndent,
    }
}

/// What adding an account does to a chart: the new chart, or the error,
/// checked in order — the name, then the labels, then the tags, then the
/// aliases against the index.
pub open spec fn add_outcome(
    c: ChartView,
    parent: Option<int>,
    name: Seq<char>,
    labels_raw: Seq<Seq<char>>,
    tags_raw: Seq<Seq<char>>,
) -> Result<ChartView, ChartErrorView> {
    let lv = dedup_first(labels_raw);
    let tv = dedup_first(tags_raw);
    let al = cand_aliases(c.accounts, parent, name, lv);
    if !valid_account_name(name) {
        Err(ChartErrorView::InvalidName(name))
    } else if first_invalid(lv) is Some {
        Err(ChartErrorView::InvalidLabel(match first_invalid(lv) {
            Some(s) => s,
            None => Seq::empty(),
        }))
    } else if first_invalid(tv) is Some {
        Err(ChartErrorView::InvalidTag(match first_invalid(tv) {
            Some(s) => s,
            None => Seq::empty(),
        }))
    } else if first_collision(c.index, al) is Some {
        Err(ChartErrorView::Duplicate(match first_collision(c.index, al) {
            Some(s) => s,
            None => Seq::empty(),
        }))
    } else {
        Ok(with_new_account(c, parent, name, lv, tv))
    }
}

/// Adding a valid, collision-free account preserves the chart invariant.
pub proof fn lemma_add_preserves_wf(
    c0: ChartView,
    parent: Option<int>,
    name: Seq<char>,
    lv: Seq<Seq<char>>,
    tv: Seq<Seq<char>>,
)
    requires
        chart_wf(c0),
        c0.accounts.len() < usize::MAX,
        valid_account_name(name),
        forall|k: int| 0 <= k < lv.len() ==> valid_token(#[trigger] lv[k]),
        forall|k: int, l: int| 0 <= k < l < lv.len() ==> lv[k] != lv[l],
        forall|k: int| 0 <= k < tv.len() ==> valid_token(#[trigger] tv[k]),
        forall|k: int, l: int| 0 <= k < l < tv.len() ==> tv[k] != tv[l],
        parent matches Some(p) ==> 0 <= p < c0.accounts.len(),
        !has_collision(c0.index, cand_aliases(c0.accounts, parent, name, lv)),
    ensures
        chart_wf(with_new_account(c0, parent, name, lv, tv)),
        forall|i: int|
            0 <= i < c0.accounts.len() ==> alias_seq_of(
                #[trigger] with_new_account(c0, parent, name, lv, tv).accounts,
                i,
            ) == alias_seq_of(c0.accounts, i),
        alias_seq_of(
            with_new_account(c0, parent, name, lv, tv).accounts,
            c0.accounts.len() as int,
        ) == cand_aliases(c0.accounts, parent, name, lv),
{
    let c1 = with_new_account(c0, parent, name, lv, tv);
    let n = c0.accounts.len() as int;
    let al = cand_aliases(c0.accounts, parent, name, lv);
    let id = c0.accounts.len() as usize;
    lemma_index_with(c0.index, al, id);
    // The aliases do not collide with the index, nor with one another.
    assert forall|k: int| 0 <= k < al.len() implies !c0.index.contains_key(al[k]) && !al.take(
        k,
    ).contains(al[k]) by {
        assert(!collision_at(c0.index, al, k));
    }
    assert forall|k: int, l: int| 0 <= k < l < al.len() implies al[k] != al[l] by {
        assert(!al.take(l).contains(al[l]));
        if al[k] == al[l] {
            assert(al.take(l)[k] == al[l]);
        }
    }
    // Existing accounts keep their names, labels and parents.
    assert(c1.accounts.len() == n + 1);
    assert forall|j: int|
        0 <= j < c0.accounts.len() implies (#[trigger] c1.accounts[j]).name == c0.accounts[j].name
        && c1.accounts[j].labels == c0.accounts[j].labels && c1.accounts[j].parent
        == c0.accounts[j].parent && c1.accounts[j].tags == c0.accounts[j].tags by {}
    assert forall|i: int| 0 <= i < c0.accounts.len() implies alias_seq_of(
        #[trigger] c1.accounts,
        i,
    ) == alias_seq_of(c0.accounts, i) && full_path_of(c1.accounts, i) == full_path_of(
        c0.accounts,
        i,
    ) by {
        lemma_alias_frame(c0.accounts, c1.accounts, i);
    }
    // The new account's aliases are exactly the candidate list.
    assert(c1.accounts[n].name == name && c1.accounts[n].labels == lv && c1.accounts[n].parent
        == parent);
    match parent {
        Some(p) => {
            assert(alias_seq_of(c1.accounts, n) == lv + suffix_all(
                alias_seq_of(c1.accounts, p),
                name,
            ));
            assert(alias_seq_of(c1.accounts, p) == alias_seq_of(c0.accounts, p));
        },
        None => {
            assert(alias_seq_of(c1.accounts, n) == lv.push(name));
        },
    }
    assert(alias_seq_of(c1.accounts, n) == al);
    // The forest stays well formed, account by account.
    assert forall|i: int| 0 <= i < c1.accounts.len() implies account_wf(c1, i) by {
        if i < n {
            assert(account_wf(c0, i));
            match c0.accounts[i].parent {
                Some(q) => {
                    assert(c0.accounts[q].children.contains(i));
                    let t = choose|t: int|
                        0 <= t < c0.accounts[q].children.len() && c0.accounts[q].children[t] == i;
                    assert(c1.accounts[q].children[t] == i);
                    assert(c1.accounts[q].children.contains(i));
                },
                None => {
                    assert(c0.top_level.contains(i));
                    let t = choose|t: int|
                        0 <= t < c0.top_level.len() && c0.top_level[t] == i;
                    assert(c1.top_level[t] == i);
                    assert(c1.top_level.contains(i));
                },
            }
            if parent == Some(i) {
                assert(c1.accounts[i].children == c0.accounts[i].children.push(n));
                assert forall|k: int| 0 <= k < c1.accounts[i].children.len() implies i < (
                #[trigger] c1.accounts[i].children[k]) < c1.accounts.len()
                    && c1.accounts[c1.accounts[i].children[k]].parent == Some(i) by {
                    if k < c0.accounts[i].children.len() {
                        assert(c1.accounts[i].children[k] == c0.accounts[i].children[k]);
                    } else {
                        assert(c1.accounts[i].children[k] == n);
                    }
                }
            } else {
                assert(c1.accounts[i].children == c0.accounts[i].children);
            }
        } else {
            assert(i == n);
            match parent {
                Some(p) => {
                    assert(c1.accounts[p].children == c0.accounts[p].children.push(n));
                    assert(c1.accounts[p].children[c0.accounts[p].children.len() as int] == n);
                    assert(c1.accounts[p].children.contains(n));
                },
                None => {
                    assert(c1.top_level[c0.top_level.len() as int] == n);
                    assert(c1.top_level.contains(n));
                },
            }
        }
    }
    // The list of roots stays well formed and complete.
    assert forall|i: int|
        0 <= i < c1.accounts.len() && c1.accounts[i].parent is None implies c1.top_level.contains(
        i,
    ) by {
        if i < n {
            assert(c0.top_level.contains(i));
            let t = choose|t: int| 0 <= t < c0.top_level.len() && c0.top_level[t] == i;
            assert(c1.top_level[t] == i);
        } else {
            assert(c1.top_level[c1.top_level.len() - 1] == n);
        }
    }
    // Every index entry points at a real account.
    assert forall|a: Seq<char>| c1.index.contains_key(a) implies #[trigger] c1.index[a]
        < c1.accounts.len() by {
        if al.contains(a) {
            assert(c1.index[a] == id);
        } else {
            assert(c0.index.contains_key(a));
            assert(c1.index[a] == c0.index[a]);
        }
    }
    // Every account's aliases resolve to it in the new index.
    assert forall|i: int, k: int|
        0 <= i < c1.accounts.len() && 0 <= k < alias_seq_of(c1.accounts, i).len()
        implies c1.index.contains_key(#[trigger] alias_seq_of(c1.accounts, i)[k]) && c1.index[
        alias_seq_of(c1.accounts, i)[k]] as int == i by {
        let a = alias_seq_of(c1.accounts, i)[k];
        if i < n {
            assert(alias_seq_of(c1.accounts, i) == alias_seq_of(c0.accounts, i));
            assert(c0.index.contains_key(a) && c0.index[a] as int == i);
            if al.contains(a) {
                let t = choose|t: int| 0 <= t < al.len() && al[t] == a;
                assert(collision_at(c0.index, al, t));
                assert(false);
            }
            assert(c1.index[a] == c0.index[a]);
        } else {
            assert(al[k] == a);
            assert(al.contains(a));
            assert(c1.index[a] == id);
        }
    }
}

/// An account's full path is always among its aliases.
pub proof fn lemma_full_path_in_aliases(c: ChartView, i: int)
    requires
        forall|j: int|
            0 <= j < c.accounts.len() ==> (match (#[trigger] c.accounts[j]).parent {
                Some(p) => 0 <= p < j,
                None => true,
            }),
        0 <= i < c.accounts.len(),
    ensures
        alias_seq_of(c.accounts, i).contains(full_path_of(c.accounts, i)),
    decreases i,
{
    let al = alias_seq_of(c.accounts, i);
    let fp = full_path_of(c.accounts, i);
    match c.accounts[i].parent {
        None => {
            assert(al[al.len() - 1] == fp);
        },
        Some(p) => {
            lemma_full_path_in_aliases(c, p);
            let pal = alias_seq_of(c.accounts, p);
            let t = choose|t: int|
                0 <= t < pal.len() && pal[t] == full_path_of(c.accounts, p);
            assert(suffix_all(pal, c.accounts[i].name)[t] == full_path_of(c.accounts, p)
                + seq![':'] + c.accounts[i].name);
            assert(al[c.accounts[i].labels.len() + t] == fp);
        },
    }
}

/// Law: once inserted, an account's full path resolves through the index to
/// that same account.
pub proof fn lemma_full_path_resolves(c: ChartView, i: int)
    requires
        chart_wf(c),
        0 <= i < c.accounts.len(),
    ensures
        c.index.contains_key(full_path_of(c.accounts, i)),
        c.index[full_path_of(c.accounts, i)] as int == i,
{
    assert forall|j: int|
        0 <= j < c.accounts.len() implies (match (#[trigger] c.accounts[j]).parent {
        Some(p) => 0 <= p < j,
        None => true,
    }) by {
        assert(account_wf(c, j));
    }
    lemma_full_path_in_aliases(c, i);
    let al = alias_seq_of(c.accounts, i);
    let t = choose|t: int| 0 <= t < al.len() && al[t] == full_path_of(c.accounts, i);
    assert(c.index.contains_key(alias_seq_of(c.accounts, i)[t]));
}

/// Law: no two accounts share a full path.
pub proof fn lemma_full_paths_unique(c: ChartView, i: int, j: int)
    requires
        chart_wf(c),
        0 <= i < c.accounts.len(),
        0 <= j < c.accounts.len(),
        i != j,
    ensures
        full_path_of(c.accounts, i) != full_path_of(c.accounts, j),
{
    lemma_full_path_resolves(c, i);
    lemma_full_path_resolves(c, j);
}

/// What [`Chart::get_account`] promises about its result.
pub open spec fn get_account_post(c: ChartView, name: Seq<char>, r: Option<usize>) -> bool {
    match r {
        Some(id) => c.index.contains_key(name) && c.index[name] == id,
        None => !c.index.contains_key(name),
    }
}

/// Law: alias resolution is stable — any two lookups of one alias in one
/// chart, as [`Chart::get_account`] specifies them, agree.
pub proof fn lemma_get_account_stable(
    c: ChartView,
    name: Seq<char>,
    r1: Option<usize>,
    r2: Option<usize>,
)
    requires
        get_account_post(c, name, r1),
        get_account_post(c, name, r2),
    ensures
        r1 == r2,
{
}

/// Whether account `a` is `b` itself or one of its ancestors.
pub open spec fn is_ancestor_or_self(accs: Seq<AccountView>, a: int, b: int) -> bool
    decreases b,
{
    if a == b {
        true
    } else if 0 <= b < accs.len() {
        match accs[b].parent {
            Some(p) => if 0 <= p < b {
                is_ancestor_or_self(accs, a, p)
            } else {
                false
            },
            None => false,
        }
    } else {
        false
    }
}

/// The relative path of account `a` against `b`: the bare names from the
/// first ancestor of `a` outside `b`'s ancestry down to `a` itself.
pub open spec fn relative_chain(accs: Seq<AccountView>, a: int, b: int) -> Seq<char>
    decreases a,
{
    if 0 <= a < accs.len() {
        match accs[a].parent {
            Some(p) => if 0 <= p < a && !is_ancestor_or_self(accs, p, b) {
                relative_chain(accs, p, b) + seq![':'] + accs[a].name
            } else {
                accs[a].name
            },
            None => accs[a].name,
        }
    } else {
        Seq::empty()
    }
}

/// The ids of the subtree rooted at `i`, in pre-order: the node itself,
/// then each child's subtree in order.
pub open spec fn preorder_node(c: ChartView, i: int) -> Seq<int>
    decreases c.accounts.len() - i, c.accounts[i].children.len() + 1,
{
    if 0 <= i < c.accounts.len() {
        seq![i] + preorder_children(c, i, 0)
    } else {
        Seq::empty()
    }
}

/// The pre-order ids of the subtrees of children `k..` of node `i`.
pub open spec fn preorder_children(c: ChartView, i: int, k: int) -> Seq<int>
    decreases c.accounts.len() - i, c.accounts[i].children.len() - k,
{
    if 0 <= i < c.accounts.len() && 0 <= k < c.accounts[i].children.len() {
        let ch = c.accounts[i].children[k];
        (if i < ch && ch < c.accounts.len() {
            preorder_node(c, ch)
        } else {
            Seq::empty()
        }) + preorder_children(c, i, k + 1)
    } else {
        Seq::empty()
    }
}

/// The pre-order ids of the forest, roots `k..`.
pub open spec fn preorder_roots(c: ChartView, k: int) -> Seq<int>
    decreases c.top_level.len() - k,
{
    if 0 <= k < c.top_level.len() {
        let t = c.top_level[k];
        (if 0 <= t < c.accounts.len() {
            preorder_node(c, t)
        } else {
            Seq::empty()
        }) + preorder_roots(c, k + 1)
    } else {
        Seq::empty()
    }
}

/// The pre-order ids of the whole forest.
pub open spec fn preorder(c: ChartView) -> Seq<int> {
    preorder_roots(c, 0)
}

/// An ancestor never has a larger arena index than its descendant.
pub proof fn lemma_ancestor_le(c: ChartView, a: int, b: int)
    requires
        chart_wf(c),
        is_ancestor_or_self(c.accounts, a, b),
    ensures
        a <= b,
    decreases b,
{
    if a != b && 0 <= b < c.accounts.len() {
        assert(account_wf(c, b));
        match c.accounts[b].parent {
            Some(p) => {
                lemma_ancestor_le(c, a, p);
            },
            None => {},
        }
    }
}

/// Ancestry composes: an ancestor of an ancestor is an ancestor.
pub proof fn lemma_ancestor_trans(c: ChartView, a: int, b: int, j: int)
    requires
        chart_wf(c),
        is_ancestor_or_self(c.accounts, a, b),
        is_ancestor_or_self(c.accounts, b, j),
    ensures
        is_ancestor_or_self(c.accounts, a, j),
    decreases j,
{
    if b != j && 0 <= j < c.accounts.len() {
        match c.accounts[j].parent {
            Some(p) => {
                if 0 <= p < j {
                    lemma_ancestor_trans(c, a, b, p);
                }
            },
            None => {},
        }
    }
}

/// Two ancestors of one account lie on one parent chain: one is an
/// ancestor of the other.
pub proof fn lemma_ancestors_comparable(c: ChartView, a: int, b: int, j: int)
    requires
        chart_wf(c),
        is_ancestor_or_self(c.accounts, a, j),
        is_ancestor_or_self(c.accounts, b, j),
    ensures
        is_ancestor_or_self(c.accounts, a, b) || is_ancestor_or_self(c.accounts, b, a),
    decreases j,
{
    if a != j && b != j && 0 <= j < c.accounts.len() {
        match c.accounts[j].parent {
            Some(p) => {
                if 0 <= p < j {
                    lemma_ancestors_comparable(c, a, b, p);
                }
            },
            None => {},
        }
    }
}

/// A strict descendant of `i` descends through one of `i`\'s children.
proof fn lemma_descend_step(c: ChartView, i: int, j: int)
    requires
        chart_wf(c),
        0 <= i < c.accounts.len(),
        0 <= j < c.accounts.len(),
        is_ancestor_or_self(c.accounts, i, j),
        i != j,
    ensures
        exists|t: int|
            0 <= t < c.accounts[i].children.len() && is_ancestor_or_self(
                c.accounts,
                #[trigger] c.accounts[i].children[t],
                j,
            ),
    decreases j,
{
    assert(account_wf(c, j));
    match c.accounts[j].parent {
        Some(p) => {
            if p == i {
                assert(c.accounts[i].children.contains(j));
                let t = choose|t: int|
                    0 <= t < c.accounts[i].children.len() && c.accounts[i].children[t] == j;
                assert(is_ancestor_or_self(c.accounts, c.accounts[i].children[t], j));
            } else {
                lemma_descend_step(c, i, p);
                let t = choose|t: int|
                    0 <= t < c.accounts[i].children.len() && is_ancestor_or_self(
                        c.accounts,
                        #[trigger] c.accounts[i].children[t],
                        p,
                    );
                let ch = c.accounts[i].children[t];
                assert(account_wf(c, i));
                assert(c.accounts[ch].parent == Some(i));
                assert(ch != j);
                assert(is_ancestor_or_self(c.accounts, ch, j));
            }
        },
        None => {
            assert(false);
        },
    }
}

/// Subtrees of two distinct children never share an account.
proof fn lemma_sibling_subtrees_meet(c: ChartView, i: int, t1: int, t2: int, x: int)
    requires
        chart_wf(c),
        0 <= i < c.accounts.len(),
        0 <= t1 < c.accounts[i].children.len(),
        0 <= t2 < c.accounts[i].children.len(),
        is_ancestor_or_self(c.accounts, c.accounts[i].children[t1], x),
        is_ancestor_or_self(c.accounts, c.accounts[i].children[t2], x),
    ensures
        t1 == t2,
{
    if t1 != t2 {
        assert(account_wf(c, i));
        let c1 = c.accounts[i].children[t1];
        let c2 = c.accounts[i].children[t2];
        assert(c1 != c2);
        lemma_ancestor_le(c, c1, x);
        lemma_ancestors_comparable(c, c1, c2, x);
        if is_ancestor_or_self(c.accounts, c1, c2) {
            assert(c.accounts[c2].parent == Some(i));
            assert(is_ancestor_or_self(c.accounts, c1, i));
            lemma_ancestor_le(c, c1, i);
        } else {
            assert(c.accounts[c1].parent == Some(i));
            assert(is_ancestor_or_self(c.accounts, c2, i));
            lemma_ancestor_le(c, c2, i);
        }
    }
}

/// The pre-order of a subtree holds exactly the descendants of its root,
/// each once.
proof fn lemma_preorder_node_elems(c: ChartView, i: int)
    requires
        chart_wf(c),
        0 <= i < c.accounts.len(),
    ensures
        forall|t: int|
            0 <= t < preorder_node(c, i).len() ==> 0 <= #[trigger] preorder_node(c, i)[t]
                < c.accounts.len() && is_ancestor_or_self(c.accounts, i, preorder_node(c, i)[t]),
        forall|j: int|
            0 <= j < c.accounts.len() && is_ancestor_or_self(c.accounts, i, j)
                ==> preorder_node(c, i).contains(j),
        preorder_node(c, i).no_duplicates(),
    decreases c.accounts.len() - i, c.accounts[i].children.len() + 1,
{
    assert(account_wf(c, i));
    lemma_preorder_children_elems(c, i, 0);
    let pn = preorder_node(c, i);
    let pc0 = preorder_children(c, i, 0);
    assert(pn == seq![i] + pc0);
    assert(is_ancestor_or_self(c.accounts, i, i));
    assert forall|t: int| 0 <= t < pn.len() implies 0 <= #[trigger] pn[t] < c.accounts.len()
        && is_ancestor_or_self(c.accounts, i, pn[t]) by {
        if t == 0 {
            assert(pn[0] == i);
        } else {
            assert(pn[t] == pc0[t - 1]);
            let u = choose|u: int|
                0 <= u < c.accounts[i].children.len() && is_ancestor_or_self(
                    c.accounts,
                    #[trigger] c.accounts[i].children[u],
                    pc0[t - 1],
                );
            let ch = c.accounts[i].children[u];
            assert(c.accounts[ch].parent == Some(i));
            assert(is_ancestor_or_self(c.accounts, i, ch));
            lemma_ancestor_trans(c, i, ch, pn[t]);
        }
    }
    assert forall|j: int|
        0 <= j < c.accounts.len() && is_ancestor_or_self(c.accounts, i, j) implies pn.contains(
        j,
    ) by {
        if j == i {
            assert(pn[0] == i);
        } else {
            lemma_descend_step(c, i, j);
            let t = choose|t: int|
                0 <= t < c.accounts[i].children.len() && is_ancestor_or_self(
                    c.accounts,
                    #[trigger] c.accounts[i].children[t],
                    j,
                );
            assert(pc0.contains(j));
            let w = choose|w: int| 0 <= w < pc0.len() && pc0[w] == j;
            assert(pn[w + 1] == j);
        }
    }
    assert forall|a: int, b: int|
        0 <= a < pn.len() && 0 <= b < pn.len() && a != b implies pn[a] != pn[b] by {
        if a != 0 && b != 0 {
            assert(pn[a] == pc0[a - 1] && pn[b] == pc0[b - 1]);
        } else {
            // One side is the root; the other lies in a child\'s subtree,
            // whose members all have larger indices.
            let o = if a == 0 {
                b
            } else {
                a
            };
            assert(pn[o] == pc0[o - 1]);
            let u = choose|u: int|
                0 <= u < c.accounts[i].children.len() && is_ancestor_or_self(
                    c.accounts,
                    #[trigger] c.accounts[i].children[u],
                    pc0[o - 1],
                );
            lemma_ancestor_le(c, c.accounts[i].children[u], pc0[o - 1]);
            assert(pc0[o - 1] > i);
        }
    }
}

/// The pre-orders of the children from position `k` on hold exactly the
/// descendants of those children, each once.
proof fn lemma_preorder_children_elems(c: ChartView, i: int, k: int)
    requires
        chart_wf(c),
        0 <= i < c.accounts.len(),
        0 <= k <= c.accounts[i].children.len(),
    ensures
        forall|t: int|
            0 <= t < preorder_children(c, i, k).len() ==> 0 <= #[trigger] preorder_children(
                c,
                i,
                k,
            )[t] < c.accounts.len() && (exists|u: int|
                k <= u < c.accounts[i].children.len() && is_ancestor_or_self(
                    c.accounts,
                    #[trigger] c.accounts[i].children[u],
                    preorder_children(c, i, k)[t],
                )),
        forall|j: int, u: int|
            0 <= j < c.accounts.len() && k <= u < c.accounts[i].children.len()
                && #[trigger] is_ancestor_or_self(c.accounts, c.accounts[i].children[u], j)
                ==> preorder_children(c, i, k).contains(j),
        preorder_children(c, i, k).no_duplicates(),
    decreases c.accounts.len() - i, c.accounts[i].children.len() - k,
{
    assert(account_wf(c, i));
    let pc = preorder_children(c, i, k);
    if k < c.accounts[i].children.len() {
        let ch = c.accounts[i].children[k];
        assert(i < ch < c.accounts.len());
        lemma_preorder_node_elems(c, ch);
        lemma_preorder_children_elems(c, i, k + 1);
        let pn = preorder_node(c, ch);
        let rest = preorder_children(c, i, k + 1);
        assert(pc == pn + rest);
        assert forall|t: int| 0 <= t < pc.len() implies 0 <= #[trigger] pc[t]
            < c.accounts.len() && (exists|u: int|
            k <= u < c.accounts[i].children.len() && is_ancestor_or_self(
                c.accounts,
                #[trigger] c.accounts[i].children[u],
                pc[t],
            )) by {
            if t < pn.len() {
                assert(pc[t] == pn[t]);
                assert(is_ancestor_or_self(c.accounts, c.accounts[i].children[k], pc[t]));
            } else {
                assert(pc[t] == rest[t - pn.len()]);
            }
        }
        assert forall|j: int, u: int|
            0 <= j < c.accounts.len() && k <= u < c.accounts[i].children.len()
                && #[trigger] is_ancestor_or_self(c.accounts, c.accounts[i].children[u], j)
            implies pc.contains(j) by {
            if u == k {
                assert(pn.contains(j));
                let w = choose|w: int| 0 <= w < pn.len() && pn[w] == j;
                assert(pc[w] == j);
            } else {
                assert(rest.contains(j));
                let w = choose|w: int| 0 <= w < rest.len() && rest[w] == j;
                assert(pc[pn.len() + w] == j);
            }
        }
        assert forall|a: int, b: int|
            0 <= a < pc.len() && 0 <= b < pc.len() && a != b implies pc[a] != pc[b] by {
            if a < pn.len() && b < pn.len() {
                assert(pc[a] == pn[a] && pc[b] == pn[b]);
            } else if a >= pn.len() && b >= pn.len() {
                assert(pc[a] == rest[a - pn.len()] && pc[b] == rest[b - pn.len()]);
            } else {
                let x = if a < pn.len() {
                    a
                } else {
                    b
                };
                let y = if a < pn.len() {
                    b
                } else {
                    a
                };
                assert(pc[x] == pn[x]);
                assert(pc[y] == rest[y - pn.len()]);
                if pc[x] == pc[y] {
                    let v = pc[x];
                    assert(is_ancestor_or_self(c.accounts, ch, v));
                    let u = choose|u: int|
                        k + 1 <= u < c.accounts[i].children.len() && is_ancestor_or_self(
                            c.accounts,
                            #[trigger] c.accounts[i].children[u],
                            v,
                        );
                    lemma_sibling_subtrees_meet(c, i, k, u, v);
                }
            }
        }
    } else {
        assert(pc == Seq::<int>::empty());
    }
}

/// Every account descends from a root that stands in the root list.
proof fn lemma_has_root(c: ChartView, j: int)
    requires
        chart_wf(c),
        0 <= j < c.accounts.len(),
    ensures
        exists|u: int|
            0 <= u < c.top_level.len() && is_ancestor_or_self(
                c.accounts,
                #[trigger] c.top_level[u],
                j,
            ),
    decreases j,
{
    assert(account_wf(c, j));
    match c.accounts[j].parent {
        Some(p) => {
            lemma_has_root(c, p);
            let u = choose|u: int|
                0 <= u < c.top_level.len() && is_ancestor_or_self(
                    c.accounts,
                    #[trigger] c.top_level[u],
                    p,
                );
            assert(c.top_level[u] != j || is_ancestor_or_self(c.accounts, c.top_level[u], j));
            assert(is_ancestor_or_self(c.accounts, c.top_level[u], j));
        },
        None => {
            assert(c.top_level.contains(j));
            let u = choose|u: int| 0 <= u < c.top_level.len() && c.top_level[u] == j;
            assert(is_ancestor_or_self(c.accounts, c.top_level[u], j));
        },
    }
}

/// Subtrees of two distinct roots never share an account.
proof fn lemma_root_subtrees_meet(c: ChartView, u1: int, u2: int, x: int)
    requires
        chart_wf(c),
        0 <= u1 < c.top_level.len(),
        0 <= u2 < c.top_level.len(),
        is_ancestor_or_self(c.accounts, c.top_level[u1], x),
        is_ancestor_or_self(c.accounts, c.top_level[u2], x),
    ensures
        u1 == u2,
{
    if u1 != u2 {
        let r1 = c.top_level[u1];
        let r2 = c.top_level[u2];
        assert(r1 != r2);
        lemma_ancestor_le(c, r1, x);
        lemma_ancestors_comparable(c, r1, r2, x);
        if is_ancestor_or_self(c.accounts, r1, r2) {
            assert(c.accounts[r2].parent is None);
        } else {
            assert(c.accounts[r1].parent is None);
        }
    }
}

/// The pre-orders of the roots from position `k` on hold exactly the
/// descendants of those roots, each once.
proof fn lemma_preorder_roots_elems(c: ChartView, k: int)
    requires
        chart_wf(c),
        0 <= k <= c.top_level.len(),
    ensures
        forall|t: int|
            0 <= t < preorder_roots(c, k).len() ==> 0 <= #[trigger] preorder_roots(c, k)[t]
                < c.accounts.len() && (exists|u: int|
                k <= u < c.top_level.len() && is_ancestor_or_self(
                    c.accounts,
                    #[trigger] c.top_level[u],
                    preorder_roots(c, k)[t],
                )),
        forall|j: int, u: int|
            0 <= j < c.accounts.len() && k <= u < c.top_level.len()
                && #[trigger] is_ancestor_or_self(c.accounts, c.top_level[u], j)
                ==> preorder_roots(c, k).contains(j),
        preorder_roots(c, k).no_duplicates(),
    decreases c.top_level.len() - k,
{
    let pr = preorder_roots(c, k);
    if k < c.top_level.len() {
        let r = c.top_level[k];
        assert(0 <= r < c.accounts.len());
        lemma_preorder_node_elems(c, r);
        lemma_preorder_roots_elems(c, k + 1);
        let pn = preorder_node(c, r);
        let rest = preorder_roots(c, k + 1);
        assert(pr == pn + rest);
        assert forall|t: int| 0 <= t < pr.len() implies 0 <= #[trigger] pr[t]
            < c.accounts.len() && (exists|u: int|
            k <= u < c.top_level.len() && is_ancestor_or_self(
                c.accounts,
                #[trigger] c.top_level[u],
                pr[t],
            )) by {
            if t < pn.len() {
                assert(pr[t] == pn[t]);
                assert(is_ancestor_or_self(c.accounts, c.top_level[k], pr[t]));
            } else {
                assert(pr[t] == rest[t - pn.len()]);
            }
        }
        assert forall|j: int, u: int|
            0 <= j < c.accounts.len() && k <= u < c.top_level.len()
                && #[trigger] is_ancestor_or_self(c.accounts, c.top_level[u], j)
            implies pr.contains(j) by {
            if u == k {
                assert(pn.contains(j));
                let w = choose|w: int| 0 <= w < pn.len() && pn[w] == j;
                assert(pr[w] == j);
            } else {
                assert(rest.contains(j));
                let w = choose|w: int| 0 <= w < rest.len() && rest[w] == j;
                assert(pr[pn.len() + w] == j);
            }
        }
        assert forall|a: int, b: int|
            0 <= a < pr.len() && 0 <= b < pr.len() && a != b implies pr[a] != pr[b] by {
            if a < pn.len() && b < pn.len() {
                assert(pr[a] == pn[a] && pr[b] == pn[b]);
            } else if a >= pn.len() && b >= pn.len() {
                assert(pr[a] == rest[a - pn.len()] && pr[b] == rest[b - pn.len()]);
            } else {
                let x = if a < pn.len() {
                    a
                } else {
                    b
                };
                let y = if a < pn.len() {
                    b
                } else {
                    a
                };
                assert(pr[x] == pn[x]);
                assert(pr[y] == rest[y - pn.len()]);
                if pr[x] == pr[y] {
                    let v = pr[x];
                    assert(is_ancestor_or_self(c.accounts, r, v));
                    let u = choose|u: int|
                        k + 1 <= u < c.top_level.len() && is_ancestor_or_self(
                            c.accounts,
                            #[trigger] c.top_level[u],
                            v,
                        );
                    lemma_root_subtrees_meet(c, k, u, v);
                }
            }
        }
    } else {
        assert(pr == Seq::<int>::empty());
    }
}

/// Law: the pre-order enumerates every account of a well-formed chart
/// exactly once — its ids are a permutation of the account indices — so a
/// serialization that follows it writes one line per account.
pub proof fn lemma_preorder_covers(c: ChartView)
    requires
        chart_wf(c),
    ensures
        preorder(c).len() == c.accounts.len(),
        preorder(c).no_duplicates(),
        forall|j: int| 0 <= j < c.accounts.len() ==> preorder(c).contains(j),
        forall|t: int|
            0 <= t < preorder(c).len() ==> 0 <= #[trigger] preorder(c)[t] < c.accounts.len(),
{
    lemma_preorder_roots_elems(c, 0);
    let pr = preorder(c);
    assert forall|j: int| 0 <= j < c.accounts.len() implies pr.contains(j) by {
        lemma_has_root(c, j);
    }
    pr.unique_seq_to_set();
    let n = c.accounts.len() as int;
    let rng = vstd::set_lib::set_int_range(0, n);
    vstd::set_lib::lemma_int_range(0, n);
    assert forall|x: int| pr.to_set().contains(x) implies rng.contains(x) by {
        assert(pr.contains(x));
        let w = choose|w: int| 0 <= w < pr.len() && pr[w] == x;
    }
    assert(pr.to_set().subset_of(rng));
    vstd::set_lib::lemma_len_subset(pr.to_set(), rng);
    assert forall|x: int| rng.contains(x) implies pr.to_set().contains(x) by {
        assert(pr.contains(x));
    }
    assert(rng.subset_of(pr.to_set()));
    vstd::set_lib::lemma_len_subset(rng, pr.to_set());
}

/// Whether `s` is the serialized line for account `i`: its full path, then
/// its labels as ` [label]` pieces in some order, then its tags as ` =tag`
/// pieces in some order.
pub open spec fn line_for(c: ChartView, i: int, s: Seq<char>) -> bool {
    exists|pl: Seq<Seq<char>>, pt: Seq<Seq<char>>|
        pl.to_multiset() == c.accounts[i].labels.to_multiset() && crate::tags::natural_sorted(pl)
            && pt.to_multiset() == c.accounts[i].tags.to_multiset()
            && crate::tags::natural_sorted(pt) && s == full_path_of(c.accounts, i)
            + crate::tags::render_labels_seq(pl) + crate::tags::render_tags_seq(pt)
}

/// A node of the account forest.
#[derive(Debug)]
pub struct Account {
    name: String,
    currency: Currency,
    parent: Option<usize>,
    children: Vec<usize>,
    labels: Labels,
    tags: Tags,
}

impl View for Account {
    type V = AccountView;

    closed spec fn view(&self) -> AccountView {
        AccountView {
            name: self.name@,
            currency: self.currency,
            parent: match self.parent {
                Some(p) => Some(p as int),
                None => None,
            },
            children: self.children@.map_values(|x: usize| x as int),
            labels: self.labels@,
            tags: self.tags@,
        }
    }
}

impl Account {
    /// The account's own name segment.
    pub fn bare_name(&self) -> (r: String)
        ensures
            r@ == self@.name,
    {
        self.name.clone()
    }

    /// Whether the account has children.
    pub fn is_parent(&self) -> (r: bool)
        ensures
            r == (self@.children.len() > 0),
    {
        proof {
            assert(self@.children.len() == self.children@.len());
        }
        self.children.len() > 0
    }

    /// The arena index of the parent, if any.
    pub fn parent(&self) -> (r: Option<usize>)
        ensures
            self@.parent == (match r {
                Some(p) => Some(p as int),
                None => None::<int>,
            }),
    {
        self.parent
    }

    /// The account's labels, in insertion order.
    pub fn iter_labels(&self) -> (r: &Vec<String>)
        ensures
            seq_views(r@) == self@.labels,
    {
        self.labels.iter()
    }

    /// The account's tags, in insertion order.
    pub fn iter_tags(&self) -> (r: &Vec<String>)
        ensures
            seq_views(r@) == self@.tags,
    {
        self.tags.iter()
    }

    /// Binds an exact decimal to this account's currency.
    pub fn money_from_decimal(&self, units: i128, scale: u32) -> (r: Money)
        requires
            scale <= MAX_SCALE,
            i128::MIN < units as int,
        ensures
            r@ == (MoneyView { units: units as int, scale: scale as nat, currency: self@.currency }),
            money_wf(r@),
    {
        Money::from_decimal(units, scale, self.currency)
    }

    /// Parses an amount string in this account's currency.
    pub fn money_from_str(&self, text: &str) -> (r: Result<Money, MoneyError>)
        ensures
            match crate::money::parsed_amount(text@) {
                Some(p) => r matches Ok(m) && m@ == (MoneyView {
                    units: p.0 as int,
                    scale: p.1 as nat,
                    currency: self@.currency,
                }) && money_wf(m@) && (m@.units < 0x1000000000000000000000000) && (m@.units
                    > -0x1000000000000000000000000),
                None => r matches Err(e) && e.text@ == text@,
            },
    {
        Money::from_str(text, self.currency)
    }
}

/// Validates a bare account name, as [`valid_account_name`] describes;
/// succeeds exactly on valid names.
pub fn validate_name(name: &str) -> (r: Result<(), InvalidAccountNameError>)
    ensures
        (r is Ok) <==> valid_account_name(name@),
        r matches Err(e) ==> e.name@ == name@,
{
    let len = name.unicode_len();
    if len == 0 {
        return Err(InvalidAccountNameError { name: String::from_str(name) });
    }
    if name.get_char(0) == ' ' || name.get_char(len - 1) == ' ' {
        return Err(InvalidAccountNameError { name: String::from_str(name) });
    }
    let mut i: usize = 0;
    let mut prev_space = false;
    while i < len
        invariant
            i <= len,
            len == name@.len(),
            forall|k: int| 0 <= k < i ==> name@[k] != ':',
            forall|k: int| 0 <= k < i - 1 ==> !(#[trigger] name@[k] == ' ' && name@[k + 1] == ' '),
            prev_space == (i > 0 && name@[i - 1] == ' '),
        decreases len - i,
    {
        let c = name.get_char(i);
        if c == ':' {
            return Err(InvalidAccountNameError { name: String::from_str(name) });
        }
        if c == ' ' && prev_space {
            return Err(InvalidAccountNameError { name: String::from_str(name) });
        }
        prev_space = c == ' ';
        i += 1;
    }
    Ok(())
}

/// The owner of the account forest and the alias index.
pub struct Chart {
    accounts: Vec<Account>,
    top_level: Vec<usize>,
    index: StringHashMap<usize>,
}

impl View for Chart {
    type V = ChartView;

    closed spec fn view(&self) -> ChartView {
        ChartView {
            accounts: self.accounts@.map_values(|a: Account| a@),
            top_level: self.top_level@.map_values(|x: usize| x as int),
            index: self.index@,
        }
    }
}

impl Chart {
    /// The chart's invariant.
    pub open spec fn wf(&self) -> bool {
        chart_wf(self@)
    }

    /// Creates an empty chart.
    pub fn new() -> (r: Chart)
        ensures
            r.wf(),
            r@.accounts == Seq::<AccountView>::empty(),
            r@.top_level == Seq::<int>::empty(),
            r@.index == Map::<Seq<char>, usize>::empty(),
    {
        let r = Chart { accounts: Vec::new(), top_level: Vec::new(), index: StringHashMap::new() };
        proof {
            assert(r@.accounts =~= Seq::<AccountView>::empty());
            assert(r@.top_level =~= Seq::<int>::empty());
        }
        r
    }

    /// The number of accounts in the chart.
    pub fn count(&self) -> (r: usize)
        ensures
            r == self@.accounts.len(),
    {
        self.accounts.len()
    }

    /// The account at an arena index.
    pub fn account(&self, id: usize) -> (r: &Account)
        requires
            id < self@.accounts.len(),
        ensures
            r@ == self@.accounts[id as int],
    {
        &self.accounts[id]
    }

    /// Pure index lookup: the account an alias resolves to, if any, as
    /// [`get_account_post`] describes.
    pub fn get_account(&self, name: &str) -> (r: Option<usize>)
        ensures
            get_account_post(self@, name@, r),
    {
        match self.index.get(name) {
            Some(id) => Some(*id),
            None => None,
        }
    }

    /// The colon-joined full path of an account.
    pub fn full_name(&self, account: usize) -> (r: String)
        requires
            self.wf(),
            account < self@.accounts.len(),
        ensures
            r@ == full_path_of(self@.accounts, account as int),
        decreases account,
    {
        let node = &self.accounts[account];
        match node.parent {
            Some(p) => {
                proof {
                    assert(account_wf(self@, account as int));
                }
                let mut r = self.full_name(p);
                r.append(":");
                r.append(node.name.as_str());
                proof {
                    reveal_strlit(":");
                    assert(":"@ =~= seq![':']);
                    assert(r@ =~= full_path_of(self@.accounts, account as int));
                }
                r
            },
            None => {
                let r = node.name.clone();
                proof {
                    assert(r@ =~= full_path_of(self@.accounts, account as int));
                }
                r
            },
        }
    }

    /// The aliases a new account would answer to.
    fn candidate_names(&self, parent: Option<usize>, name: &str, labels: &Labels) -> (r: Vec<
        String,
    >)
        requires
            self.wf(),
            parent matches Some(p) ==> p < self@.accounts.len(),
        ensures
            seq_views(r@) == cand_aliases(self@.accounts, opt_view(parent), name@, labels@),
    {
        let items = labels.iter();
        let mut r: Vec<String> = Vec::new();
        let n = items.len();
        let mut i: usize = 0;
        while i < n
            invariant
                i <= n,
                n == items@.len(),
                seq_views(r@) =~= seq_views(items@).take(i as int),
            decreases n - i,
        {
            let ghost before = seq_views(r@);
            r.push(items[i].clone());
            proof {
                assert(seq_views(r@) =~= before.push(items@[i as int]@));
                assert(seq_views(items@).take(i + 1 as int) =~= seq_views(items@).take(
                    i as int,
                ).push(items@[i as int]@));
            }
            i += 1;
        }
        proof {
            assert(seq_views(items@).take(n as int) =~= seq_views(items@));
        }
        match parent {
            Some(p) => {
                let parent_names = self.all_names(p);
                let m = parent_names.len();
                let ghost base = seq_views(r@);
                let ghost pviews = seq_views(parent_names@);
                let mut j: usize = 0;
                while j < m
                    invariant
                        j <= m,
                        m == parent_names@.len(),
                        pviews == seq_views(parent_names@),
                        seq_views(r@) =~= base + suffix_all(pviews, name@).take(j as int),
                    decreases m - j,
                {
                    let mut s = parent_names[j].clone();
                    s.append(":");
                    s.append(name);
                    let ghost before = seq_views(r@);
                    r.push(s);
                    proof {
                        reveal_strlit(":");
                        assert(":"@ =~= seq![':']);
                        assert(s@ == pviews[j as int] + seq![':'] + name@);
                        assert(seq_views(r@) =~= before.push(s@));
                        assert(suffix_all(pviews, name@).take(j + 1 as int) =~= suffix_all(
                            pviews,
                            name@,
                        ).take(j as int).push(suffix_all(pviews, name@)[j as int]));
                    }
                    j += 1;
                }
                proof {
                    assert(suffix_all(pviews, name@).take(m as int) =~= suffix_all(pviews, name@));
                    assert(seq_views(r@) =~= cand_aliases(
                        self@.accounts,
                        opt_view(parent),
                        name@,
                        labels@,
                    ));
                }
                r
            },
            None => {
                let ghost before = seq_views(r@);
                r.push(String::from_str(name));
                proof {
                    assert(seq_views(r@) =~= before.push(name@));
                    assert(seq_views(r@) =~= cand_aliases(
                        self@.accounts,
                        opt_view(parent),
                        name@,
                        labels@,
                    ));
                }
                r
            },
        }
    }

    /// Looks for the first alias of `names` that collides with the index or
    /// with an earlier alias of the same list.
    fn find_collision(&self, names: &Vec<String>) -> (r: Option<String>)
        ensures
            match r {
                Some(bad) => exists|k: int|
                    0 <= k < names@.len() && #[trigger] collision_at(
                        self@.index,
                        seq_views(names@),
                        k,
                    ) && bad@ == seq_views(names@)[k] && (forall|l: int|
                        0 <= l < k ==> !collision_at(self@.index, seq_views(names@), l)),
                None => !has_collision(self@.index, seq_views(names@)),
            },
    {
        let ghost al = seq_views(names@);
        let n = names.len();
        let mut k: usize = 0;
        while k < n
            invariant
                k <= n,
                n == names@.len(),
                al == seq_views(names@),
                forall|l: int| 0 <= l < k ==> !collision_at(self@.index, al, l),
            decreases n - k,
        {
            let mut hit = self.index.contains_key(names[k].as_str());
            if !hit {
                // Compare against the earlier aliases of the same list.
                let mut l: usize = 0;
                while l < k
                    invariant
                        l <= k < n,
                        n == names@.len(),
                        al == seq_views(names@),
                        !hit ==> forall|t: int| 0 <= t < l ==> al[t] != al[k as int],
                        hit ==> al.take(k as int).contains(al[k as int]),
                    ensures
                        hit ==> al.take(k as int).contains(al[k as int]),
                        !hit ==> forall|t: int| 0 <= t < k ==> al[t] != al[k as int],
                    decreases k - l,
                {
                    if str_eq(names[l].as_str(), names[k].as_str()) {
                        hit = true;
                        proof {
                            assert(al.take(k as int)[l as int] == al[k as int]);
                        }
                        break ;
                    }
                    l += 1;
                }
                proof {
                    if !hit {
                        assert forall|t: int|
                            0 <= t < al.take(k as int).len() implies al.take(k as int)[t] != al[
                            k as int] by {
                            assert(al.take(k as int)[t] == al[t]);
                        }
                    }
                }
            }
            if hit {
                proof {
                    assert(collision_at(self@.index, al, k as int));
                }
                return Some(names[k].clone());
            }
            proof {
                assert(!collision_at(self@.index, al, k as int));
            }
            k += 1;
        }
        proof {
            assert(forall|l: int| 0 <= l < al.len() ==> !collision_at(self@.index, al, l));
        }
        None
    }

    /// The serialized line of one account.
    fn account_line(&self, i: usize) -> (r: String)
        requires
            self.wf(),
            i < self@.accounts.len(),
        ensures
            line_for(self@, i as int, r@),
    {
        let mut line = self.full_name(i);
        let node = &self.accounts[i];
        let lr = node.labels.render();
        let tr = node.tags.render();
        line.append(lr.as_str());
        line.append(tr.as_str());
        proof {
            let pl = choose|pl: Seq<Seq<char>>|
                pl.to_multiset() == node@.labels.to_multiset() && crate::tags::natural_sorted(pl)
                    && lr@ == crate::tags::render_labels_seq(pl);
            let pt = choose|pt: Seq<Seq<char>>|
                pt.to_multiset() == node@.tags.to_multiset() && crate::tags::natural_sorted(pt)
                    && tr@ == crate::tags::render_tags_seq(pt);
            assert(line@ == full_path_of(self@.accounts, i as int)
                + crate::tags::render_labels_seq(pl) + crate::tags::render_tags_seq(pt));
        }
        line
    }

    /// The serialized lines of the subtree rooted at `i`, in pre-order.
    fn node_lines(&self, i: usize) -> (r: Vec<String>)
        requires
            self.wf(),
            i < self@.accounts.len(),
        ensures
            r@.len() == preorder_node(self@, i as int).len(),
            forall|t: int|
                0 <= t < r@.len() ==> 0 <= #[trigger] preorder_node(self@, i as int)[t]
                    < self@.accounts.len() && line_for(
                    self@,
                    preorder_node(self@, i as int)[t],
                    r@[t]@,
                ),
        decreases self@.accounts.len() - i, self@.accounts[i as int].children.len() + 1,
    {
        let ghost c = self@;
        let mut r: Vec<String> = Vec::new();
        r.push(self.account_line(i));
        proof {
            assert(account_wf(c, i as int));
        }
        let m = self.accounts[i].children.len();
        let mut k: usize = 0;
        let ghost mut done: Seq<int> = seq![i as int];
        proof {
            assert(done + preorder_children(c, i as int, 0) =~= preorder_node(c, i as int));
            assert(done[0] == i as int);
        }
        while k < m
            invariant
                self.wf(),
                c == self@,
                i < c.accounts.len(),
                m == c.accounts[i as int].children.len(),
                k <= m,
                done.len() == r@.len(),
                forall|t: int|
                    0 <= t < r@.len() ==> 0 <= #[trigger] done[t] < c.accounts.len() && line_for(
                        c,
                        done[t],
                        r@[t]@,
                    ),
                preorder_node(c, i as int) == done + preorder_children(c, i as int, k as int),
            decreases m - k,
        {
            proof {
                assert(account_wf(c, i as int));
            }
            let ch = self.accounts[i].children[k];
            let mut sub = self.node_lines(ch);
            let ghost subids = preorder_node(c, ch as int);
            let ghost subv = sub@;
            let ghost old_r = r@;
            let ghost old_done = done;
            r.append(&mut sub);
            proof {
                done = old_done + subids;
                assert(preorder_children(c, i as int, k as int) == subids + preorder_children(
                    c,
                    i as int,
                    k + 1,
                ));
                assert(done + preorder_children(c, i as int, k + 1 as int) =~= old_done + (subids
                    + preorder_children(c, i as int, k + 1 as int)));
                assert forall|t: int|
                    0 <= t < r@.len() implies 0 <= #[trigger] done[t] < c.accounts.len()
                    && line_for(c, done[t], r@[t]@) by {
                    if t < old_r.len() {
                        assert(done[t] == old_done[t]);
                        assert(r@[t] == old_r[t]);
                    } else {
                        assert(done[t] == subids[t - old_r.len()]);
                        assert(r@[t] == subv[t - old_r.len()]);
                    }
                }
            }
            k += 1;
        }
        proof {
            assert(preorder_children(c, i as int, m as int) == Seq::<int>::empty());
            assert(done =~= preorder_node(c, i as int));
        }
        r
    }

    /// Serializes the forest, one line per account, in pre-order: each line
    /// is the account's full path followed by its labels and tags.  That
    /// the pre-order names every account exactly once is
    /// [`lemma_preorder_covers`].
    pub fn write_lines(&self) -> (r: Vec<String>)
        requires
            self.wf(),
        ensures
            r@.len() == preorder(self@).len(),
            forall|t: int|
                0 <= t < r@.len() ==> 0 <= #[trigger] preorder(self@)[t] < self@.accounts.len()
                    && line_for(self@, preorder(self@)[t], r@[t]@),
    {
        let ghost c = self@;
        let mut r: Vec<String> = Vec::new();
        let m = self.top_level.len();
        let mut k: usize = 0;
        let ghost mut done: Seq<int> = Seq::empty();
        proof {
            assert(done + preorder_roots(c, 0) =~= preorder(c));
        }
        while k < m
            invariant
                self.wf(),
                c == self@,
                m == c.top_level.len(),
                k <= m,
                done.len() == r@.len(),
                forall|t: int|
                    0 <= t < r@.len() ==> 0 <= #[trigger] done[t] < c.accounts.len() && line_for(
                        c,
                        done[t],
                        r@[t]@,
                    ),
                preorder(c) == done + preorder_roots(c, k as int),
            decreases m - k,
        {
            let root = self.top_level[k];
            let mut sub = self.node_lines(root);
            let ghost subids = preorder_node(c, root as int);
            let ghost subv = sub@;
            let ghost old_r = r@;
            let ghost old_done = done;
            r.append(&mut sub);
            proof {
                done = old_done + subids;
                assert(preorder_roots(c, k as int) == subids + preorder_roots(c, k + 1));
                assert(done + preorder_roots(c, k + 1 as int) =~= old_done + (subids
                    + preorder_roots(c, k + 1 as int)));
                assert forall|t: int|
                    0 <= t < r@.len() implies 0 <= #[trigger] done[t] < c.accounts.len()
                    && line_for(c, done[t], r@[t]@) by {
                    if t < old_r.len() {
                        assert(done[t] == old_done[t]);
                        assert(r@[t] == old_r[t]);
                    } else {
                        assert(done[t] == subids[t - old_r.len()]);
                        assert(r@[t] == subv[t - old_r.len()]);
                    }
                }
            }
            k += 1;
        }
        proof {
            assert(preorder_roots(c, m as int) == Seq::<int>::empty());
            assert(done =~= preorder(c));
        }
        r
    }

    /// Whether `a` is `b` itself or one of its ancestors.
    pub fn contains(&self, a: usize, b: usize) -> (r: bool)
        requires
            self.wf(),
            a < self@.accounts.len(),
            b < self@.accounts.len(),
        ensures
            r == is_ancestor_or_self(self@.accounts, a as int, b as int),
    {
        let mut cur = b;
        loop
            invariant
                self.wf(),
                a < self@.accounts.len(),
                cur < self@.accounts.len(),
                is_ancestor_or_self(self@.accounts, a as int, b as int) == is_ancestor_or_self(
                    self@.accounts,
                    a as int,
                    cur as int,
                ),
            decreases cur,
        {
            if cur == a {
                return true;
            }
            proof {
                assert(account_wf(self@, cur as int));
            }
            match self.accounts[cur].parent {
                Some(p) => {
                    cur = p;
                },
                None => {
                    return false;
                },
            }
        }
    }

    /// The relative path of `a` against `b`: `None` when `a` is `b` or one
    /// of its ancestors, else the bare names from the first ancestor of `a`
    /// outside `b`'s ancestry down to `a`, colon-joined.
    pub fn relative_name(&self, a: usize, b: usize) -> (r: Option<String>)
        requires
            self.wf(),
            a < self@.accounts.len(),
            b < self@.accounts.len(),
        ensures
            match r {
                Some(s) => !is_ancestor_or_self(self@.accounts, a as int, b as int) && s@
                    == relative_chain(self@.accounts, a as int, b as int),
                None => is_ancestor_or_self(self@.accounts, a as int, b as int),
            },
    {
        if self.contains(a, b) {
            return None;
        }
        Some(self.relative_chain_exec(a, b))
    }

    /// The colon-joined relative chain, as [`relative_chain`] describes.
    fn relative_chain_exec(&self, a: usize, b: usize) -> (r: String)
        requires
            self.wf(),
            a < self@.accounts.len(),
            b < self@.accounts.len(),
        ensures
            r@ == relative_chain(self@.accounts, a as int, b as int),
        decreases a,
    {
        proof {
            assert(account_wf(self@, a as int));
        }
        let node = &self.accounts[a];
        match node.parent {
            Some(p) => {
                if !self.contains(p, b) {
                    let mut r = self.relative_chain_exec(p, b);
                    r.append(":");
                    r.append(node.name.as_str());
                    proof {
                        reveal_strlit(":");
                        assert(":"@ =~= seq![':']);
                        assert(r@ =~= relative_chain(self@.accounts, a as int, b as int));
                    }
                    r
                } else {
                    let r = node.name.clone();
                    proof {
                        assert(r@ =~= relative_chain(self@.accounts, a as int, b as int));
                    }
                    r
                }
            },
            None => {
                let r = node.name.clone();
                proof {
                    assert(r@ =~= relative_chain(self@.accounts, a as int, b as int));
                }
                r
            },
        }
    }

    /// Adds an account under `parent` (or as a root), registering all of its
    /// aliases atomically: on any error the chart is unchanged.
    pub(crate) fn add_account(&mut self, parent: Option<usize>, name: &str, labels: &[&str], tags: &[&str])
        -> (r: Result<usize, ChartError>)
        requires
            old(self).wf(),
            parent matches Some(p) ==> p < old(self)@.accounts.len(),
            old(self)@.accounts.len() < usize::MAX - 1,
        ensures
            final(self).wf(),
            match add_outcome(
                old(self)@,
                opt_view(parent),
                name@,
                str_views(labels@),
                str_views(tags@),
            ) {
                Ok(c2) => r matches Ok(id) && id == old(self)@.accounts.len() && final(self)@
                    == c2,
                Err(ev) => r matches Err(e) && chart_error_matches(e, ev) && final(self)@ == old(
                    self,
                )@,
            },
    {
        let ghost c0 = self@;
        if let Err(e) = validate_name(name) {
            return Err(ChartError::InvalidName(e));
        }
        let labels_set = match Labels::from_iter(labels) {
            Ok(s) => s,
            Err(e) => {
                return Err(ChartError::InvalidLabel(e));
            },
        };
        proof {
            crate::tags::lemma_first_invalid_dedup_none(str_views(labels@));
        }
        let tags_set = match Tags::from_iter(tags) {
            Ok(s) => s,
            Err(e) => {
                return Err(ChartError::InvalidTag(e));
            },
        };
        proof {
            crate::tags::lemma_first_invalid_dedup_none(str_views(tags@));
        }
        let names = self.candidate_names(parent, name, &labels_set);
        let ghost al = cand_aliases(c0.accounts, opt_view(parent), name@, labels_set@);
        if let Some(bad) = self.find_collision(&names) {
            proof {
                let k = choose|k: int|
                    0 <= k < names@.len() && #[trigger] collision_at(
                        c0.index,
                        seq_views(names@),
                        k,
                    ) && bad@ == seq_views(names@)[k] && (forall|l: int|
                        0 <= l < k ==> !collision_at(c0.index, seq_views(names@), l));
                lemma_first_collision_found(c0.index, al, k);
            }
            return Err(ChartError::Duplicate(DuplicateAccountNameError { name: bad }));
        }
        proof {
            lemma_first_collision_none(c0.index, al);
        }
        let id = self.accounts.len();
        // Register every alias.
        let n_names = names.len();
        let mut k: usize = 0;
        while k < n_names
            invariant
                k <= n_names,
                n_names == names@.len(),
                al == seq_views(names@),
                self@.index == index_with(c0.index, al.take(k as int), id as usize),
                self@.accounts == c0.accounts,
                self@.top_level == c0.top_level,
                id == c0.accounts.len(),
            decreases n_names - k,
        {
            self.index.insert(names[k].clone(), id);
            proof {
                assert(al.take(k + 1 as int).drop_last() =~= al.take(k as int));
                assert(al.take(k + 1 as int).last() == al[k as int]);
            }
            k += 1;
        }
        proof {
            assert(al.take(n_names as int) =~= al);
        }
        // Grow the forest.
        let account = Account {
            name: String::from_str(name),
            currency: default_currency(),
            parent,
            children: Vec::new(),
            labels: labels_set,
            tags: tags_set,
        };
        match parent {
            Some(p) => {
                let node = &mut self.accounts[p];
                node.children.push(id);
            },
            None => {
                self.top_level.push(id);
            },
        }
        self.accounts.push(account);
        proof {
            let c2 = with_new_account(c0, opt_view(parent), name@, labels_set@, tags_set@);
            let ni = id as int;
            assert(self@.accounts.len() == c2.accounts.len());
            assert forall|j: int|
                0 <= j < self@.accounts.len() implies self@.accounts[j] == c2.accounts[j] by {
                if j == ni {
                    assert(self@.accounts[j].children =~= c2.accounts[j].children);
                    assert(self@.accounts[j] =~= c2.accounts[j]);
                } else {
                    match parent {
                        Some(p) => {
                            if j == p as int {
                                assert(self@.accounts[j].children =~= c2.accounts[j].children);
                                assert(self@.accounts[j] =~= c2.accounts[j]);
                            } else {
                                assert(self@.accounts[j] =~= c2.accounts[j]);
                            }
                        },
                        None => {
                            assert(self@.accounts[j] =~= c2.accounts[j]);
                        },
                    }
                }
            }
            assert(self@.accounts =~= c2.accounts);
            assert(self@.top_level =~= c2.top_level);
            assert(self@ =~= c2);
            lemma_dedup_first(str_views(labels@));
            lemma_dedup_first(str_views(tags@));
            assert forall|k: int|
                0 <= k < labels_set@.len() implies valid_token(#[trigger] labels_set@[k]) by {
                assert(labels_set@.contains(labels_set@[k]));
                assert(str_views(labels@).contains(labels_set@[k]));
                let j = choose|j: int|
                    0 <= j < str_views(labels@).len() && str_views(labels@)[j] == labels_set@[k];
                assert(valid_token(str_views(labels@)[j]));
            }
            assert forall|k: int|
                0 <= k < tags_set@.len() implies valid_token(#[trigger] tags_set@[k]) by {
                assert(tags_set@.contains(tags_set@[k]));
                assert(str_views(tags@).contains(tags_set@[k]));
                let j = choose|j: int|
                    0 <= j < str_views(tags@).len() && str_views(tags@)[j] == tags_set@[k];
                assert(valid_token(str_views(tags@)[j]));
            }
            lemma_add_preserves_wf(
                c0,
                opt_view(parent),
                name@,
                labels_set@,
                tags_set@,
            );
        }
        Ok(id)
    }

    /// Adds a top-level account, as [`add_outcome`] describes: the name is
    /// validated, the labels and tags built, and every alias registered, all
    /// or nothing.
    pub fn add_top_level_account(&mut self, name: &str, labels: &[&str], tags: &[&str]) -> (r:
        Result<usize, ChartError>)
        requires
            old(self).wf(),
            old(self)@.accounts.len() < usize::MAX - 1,
        ensures
            final(self).wf(),
            match add_outcome(old(self)@, None, name@, str_views(labels@), str_views(tags@)) {
                Ok(c2) => r matches Ok(id) && id == old(self)@.accounts.len() && final(self)@
                    == c2,
                Err(ev) => r matches Err(e) && chart_error_matches(e, ev) && final(self)@ == old(
                    self,
                )@,
            },
    {
        self.add_account(None, name, labels, tags)
    }

    /// Adds a child account under `parent`, as [`add_outcome`] describes.
    pub fn add_child_account(
        &mut self,
        parent: usize,
        name: &str,
        labels: &[&str],
        tags: &[&str],
    ) -> (r: Result<usize, ChartError>)
        requires
            old(self).wf(),
            parent < old(self)@.accounts.len(),
            old(self)@.accounts.len() < usize::MAX - 1,
        ensures
            final(self).wf(),
            match add_outcome(
                old(self)@,
                Some(parent as int),
                name@,
                str_views(labels@),
                str_views(tags@),
            ) {
                Ok(c2) => r matches Ok(id) && id == old(self)@.accounts.len() && final(self)@
                    == c2,
                Err(ev) => r matches Err(e) && chart_error_matches(e, ev) && final(self)@ == old(
                    self,
                )@,
            },
    {
        self.add_account(Some(parent), name, labels, tags)
    }

    /// All aliases of an account, as [`alias_seq_of`] describes.
    pub fn all_names(&self, account: usize) -> (r: Vec<String>)
        requires
            self.wf(),
            account < self@.accounts.len(),
        ensures
            seq_views(r@) == alias_seq_of(self@.accounts, account as int),
        decreases account,
    {
        let node = &self.accounts[account];
        let labels = node.labels.iter();
        let mut r: Vec<String> = Vec::new();
        let n = labels.len();
        let mut i: usize = 0;
        while i < n
            invariant
                i <= n,
                n == labels@.len(),
                seq_views(r@) =~= seq_views(labels@).take(i as int),
            decreases n - i,
        {
            let ghost before = seq_views(r@);
            r.push(labels[i].clone());
            proof {
                assert(seq_views(r@) =~= before.push(labels@[i as int]@));
                assert(seq_views(labels@).take(i + 1 as int) =~= seq_views(labels@).take(
                    i as int,
                ).push(labels@[i as int]@));
            }
            i += 1;
        }
        proof {
            assert(seq_views(labels@).take(n as int) =~= seq_views(labels@));
            assert(account_wf(self@, account as int));
        }
        match node.parent {
            Some(p) => {
                let parent_names = self.all_names(p);
                let m = parent_names.len();
                let ghost base = seq_views(r@);
                let ghost pviews = seq_views(parent_names@);
                let mut j: usize = 0;
                while j < m
                    invariant
                        j <= m,
                        m == parent_names@.len(),
                        pviews == seq_views(parent_names@),
                        seq_views(r@) =~= base + suffix_all(pviews, node@.name).take(j as int),
                        node@.name == node.name@,
                    decreases m - j,
                {
                    let mut s = parent_names[j].clone();
                    s.append(":");
                    s.append(node.name.as_str());
                    let ghost before = seq_views(r@);
                    r.push(s);
                    proof {
                        reveal_strlit(":");
                        assert(":"@ =~= seq![':']);
                        assert(s@ == pviews[j as int] + seq![':'] + node@.name);
                        assert(seq_views(r@) =~= before.push(s@));
                        assert(suffix_all(pviews, node@.name).take(j + 1 as int) =~= suffix_all(
                            pviews,
                            node@.name,
                        ).take(j as int).push(suffix_all(pviews, node@.name)[j as int]));
                    }
                    j += 1;
                }
                proof {
                    assert(suffix_all(pviews, node@.name).take(m as int) =~= suffix_all(
                        pviews,
                        node@.name,
                    ));
                    assert(seq_views(r@) =~= alias_seq_of(self@.accounts, account as int));
                }
                r
            },
            None => {
                let ghost before = seq_views(r@);
                r.push(node.name.clone());
                proof {
                    assert(seq_views(r@) =~= before.push(node@.name));
                    assert(seq_views(r@) =~= alias_seq_of(self@.accounts, account as int));
                }
                r
            },
        }
    }
}

} // verus!
