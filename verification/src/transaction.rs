//! Entries and transactions: the double-entry model.
//!
//! An entry binds a nonzero exact amount to an account; a transaction
//! groups at least two entries whose amounts, in their shared currency,
//! sum to exactly zero.  Both are validated at construction.

use vstd::prelude::*;

use crate::account::{Chart, ChartView, full_path_of};
use crate::date::{contextual_date_chars, date_chars, date_wf, format_contextual_date, format_date, Date};
use crate::money::{
    add_fits, amount_chars, money_wf, parsed_amount, pow10, render_amount, scaled_units, Currency,
    Money, MoneyView, MAX_SCALE,
};
use crate::tags::{dedup_first, first_invalid, render_tags_seq, str_views, Tags};

verus! {

/// The mathematical content of an [`Entry`].
#[verifier::ext_equal]
pub struct EntryView {
    pub account: int,
    pub units: int,
    pub scale: nat,
    pub currency: Currency,
    pub cdate: Option<Date>,
    pub detail: Seq<char>,
}

/// A well-formed entry: a nonzero amount within the decimal range the
/// parser can produce, and a renderable clearance date when present.
pub open spec fn entry_wf(e: EntryView) -> bool {
    &&& e.scale <= MAX_SCALE
    &&& -0x1000000000000000000000000 < e.units < 0x1000000000000000000000000
    &&& e.units != 0
    &&& (e.cdate matches Some(d) ==> date_wf(d))
}

/// The entry's amount as an exact integer at a fixed `MAX_SCALE` decimal
/// places.
pub open spec fn entry_scaled(e: EntryView) -> int {
    e.units * pow10((MAX_SCALE - e.scale) as nat)
}

/// The entry's amount as a money view.
pub open spec fn entry_money(e: EntryView) -> MoneyView {
    MoneyView { units: e.units, scale: e.scale, currency: e.currency }
}

/// The views of a list of entries.
pub open spec fn entry_views(s: Seq<Entry>) -> Seq<EntryView> {
    s.map_values(|e: Entry| e@)
}

/// One entry of a transaction: an account reference, a signed exact
/// amount in the account's currency, an optional clearance date, and free
/// detail text.
#[derive(Debug)]
pub struct Entry {
    account: usize,
    units: i128,
    scale: u32,
    currency: Currency,
    cdate: Option<Date>,
    detail: String,
}

impl View for Entry {
    type V = EntryView;

    closed spec fn view(&self) -> EntryView {
        EntryView {
            account: self.account as int,
            units: self.units as int,
            scale: self.scale as nat,
            currency: self.currency,
            cdate: self.cdate,
            detail: self.detail@,
        }
    }
}

/// The error for an entry that cannot be built.
#[derive(Debug, Clone, PartialEq, Eq)]
pub enum EntryError {
    /// The amount string did not parse as a decimal.
    MalformedAmount { amount: String },
    /// The amount parsed to exactly zero.
    ZeroAmount,
}

impl Entry {
    /// Builds an entry against an account of the chart.  The amount string
    /// is parsed in the account's currency; a malformed string or an
    /// exactly-zero amount is rejected.
    pub fn new(
        chart: &Chart,
        account: usize,
        amount_str: &str,
        cdate: Option<Date>,
        detail: &str,
    ) -> (r: Result<Entry, EntryError>)
        requires
            account < chart@.accounts.len(),
            cdate matches Some(d) ==> date_wf(d),
        ensures
            match parsed_amount(amount_str@) {
                None => r matches Err(e) && e matches EntryError::MalformedAmount { amount }
                    && amount@ == amount_str@,
                Some(p) => if p.0 == 0 {
                    r == Err::<Entry, EntryError>(EntryError::ZeroAmount)
                } else {
                    r matches Ok(en) && en@ == (EntryView {
                        account: account as int,
                        units: p.0 as int,
                        scale: p.1 as nat,
                        currency: chart@.accounts[account as int].currency,
                        cdate,
                        detail: detail@,
                    }) && entry_wf(en@)
                },
            },
    {
        let node = chart.account(account);
        let money = match node.money_from_str(amount_str) {
            Ok(m) => m,
            Err(e) => {
                return Err(EntryError::MalformedAmount { amount: e.text });
            },
        };
        if money.is_zero() {
            return Err(EntryError::ZeroAmount);
        }
        let en = Entry {
            account,
            units: money.units(),
            scale: money.scale(),
            currency: money.currency(),
            cdate,
            detail: String::from_str(detail),
        };
        proof {
            match parsed_amount(amount_str@) {
                Some(p) => {
                    assert(en@ =~= (EntryView {
                        account: account as int,
                        units: p.0 as int,
                        scale: p.1 as nat,
                        currency: chart@.accounts[account as int].currency,
                        cdate,
                        detail: detail@,
                    }));
                },
                None => {
                    assert(false);
                },
            }
        }
        Ok(en)
    }

    /// The entry's amount bound to its currency.
    pub fn money(&self) -> (r: Money)
        requires
            entry_wf(self@),
        ensures
            r@ == entry_money(self@),
            money_wf(r@),
    {
        Money::from_decimal(self.units, self.scale, self.currency)
    }

    /// The arena index of the entry's account.
    pub fn account(&self) -> (r: usize)
        ensures
            r as int == self@.account,
    {
        self.account
    }
}

/// The exact sum of the first `k` entries' amounts, or nothing where an
/// intermediate exact sum does not fit the machine integer.
pub open spec fn sum_spec(es: Seq<EntryView>, k: int) -> Option<MoneyView>
    decreases k,
{
    if k == 1 {
        Some(entry_money(es[0]))
    } else if 1 < k <= es.len() {
        match sum_spec(es, k - 1) {
            Some(a) => if add_fits(a, entry_money(es[k - 1])) {
                Some(crate::money::money_add_view(a, entry_money(es[k - 1])))
            } else {
                None
            },
            None => None,
        }
    } else {
        None
    }
}

/// The exact total of the first `k` entries, at `MAX_SCALE` decimal
/// places: the mathematical sum, free of any machine limit.
pub open spec fn total_scaled(es: Seq<EntryView>, k: int) -> int
    decreases k,
{
    if 0 < k <= es.len() {
        total_scaled(es, k - 1) + entry_scaled(es[k - 1])
    } else {
        0
    }
}

/// When the machine sum exists it equals the mathematical total.
pub proof fn lemma_sum_spec_scaled(es: Seq<EntryView>, k: int)
    requires
        1 <= k <= es.len(),
        forall|t: int| 0 <= t < es.len() ==> money_wf(entry_money(#[trigger] es[t])),
        sum_spec(es, k) is Some,
    ensures
        sum_spec(es, k) matches Some(m) && scaled_units(m) == total_scaled(es, k) && money_wf(m),
    decreases k,
{
    if k == 1 {
        assert(total_scaled(es, 1) == total_scaled(es, 0) + entry_scaled(es[0]));
    } else {
        lemma_sum_spec_scaled(es, k - 1);
        let a = match sum_spec(es, k - 1) {
            Some(a) => a,
            None => arbitrary(),
        };
        crate::money::lemma_add_view_scaled(a, entry_money(es[k - 1]));
    }
}

/// The error for a transaction that cannot be built.
#[derive(Debug, Clone, PartialEq, Eq)]
pub enum TransactionError {
    /// Fewer than two entries.
    TooFewEntries,
    /// The entries' exact sum is not zero.
    NonZeroSum,
    /// An intermediate exact sum does not fit the machine integer.
    AmountOverflow,
    /// A transaction tag is not a valid token.
    InvalidTag { name: String },
}

/// The mathematical content of a [`Transaction`].
#[verifier::ext_equal]
pub struct TransactionView {
    pub date: Date,
    pub edate: Date,
    pub who: Seq<char>,
    pub what: Seq<char>,
    pub entries: Seq<EntryView>,
    pub tags: Seq<Seq<char>>,
}

/// A validated transaction: at least two entries, in one currency,
/// summing to exactly zero.
#[derive(Debug)]
pub struct Transaction {
    date: Date,
    edate: Date,
    who: String,
    what: String,
    entries: Vec<Entry>,
    tags: Tags,
}

impl View for Transaction {
    type V = TransactionView;

    closed spec fn view(&self) -> TransactionView {
        TransactionView {
            date: self.date,
            edate: self.edate,
            who: self.who@,
            what: self.what@,
            entries: entry_views(self.entries@),
            tags: self.tags@,
        }
    }
}

impl Transaction {
    /// Builds a transaction.  It must have at least two entries, whose
    /// exact amounts cancel to zero; the effective date defaults to the
    /// primary date; the tags are validated and deduplicated.
    pub fn new(
        date: Date,
        edate: Option<Date>,
        who: &str,
        what: &str,
        entries: Vec<Entry>,
        tags: &[&str],
    ) -> (r: Result<Transaction, TransactionError>)
        requires
            forall|k: int| 0 <= k < entries@.len() ==> entry_wf((#[trigger] entries@[k])@),
            forall|k: int|
                0 <= k < entries@.len() ==> (#[trigger] entries@[k])@.currency
                    == entries@[0]@.currency,
        ensures
            ({
                let es = entry_views(entries@);
                let n = es.len() as int;
                if n < 2 {
                    r == Err::<Transaction, TransactionError>(TransactionError::TooFewEntries)
                } else if sum_spec(es, n) is None {
                    r == Err::<Transaction, TransactionError>(TransactionError::AmountOverflow)
                } else if total_scaled(es, n) != 0 {
                    r == Err::<Transaction, TransactionError>(TransactionError::NonZeroSum)
                } else if first_invalid(dedup_first(str_views(tags@))) is Some {
                    r matches Err(e) && e matches TransactionError::InvalidTag { name }
                        && Some(name@) == first_invalid(dedup_first(str_views(tags@)))
                } else {
                    r matches Ok(t) && t@ == (TransactionView {
                        date,
                        edate: match edate {
                            Some(d) => d,
                            None => date,
                        },
                        who: who@,
                        what: what@,
                        entries: es,
                        tags: dedup_first(str_views(tags@)),
                    })
                }
            }),
    {
        let ghost es = entry_views(entries@);
        if entries.len() < 2 {
            return Err(TransactionError::TooFewEntries);
        }
        let total = match sum(&entries) {
            Some(m) => m,
            None => {
                return Err(TransactionError::AmountOverflow);
            },
        };
        proof {
            assert forall|t: int|
                0 <= t < es.len() implies money_wf(entry_money(#[trigger] es[t])) by {
                assert(entry_wf(entries@[t]@));
            }
            lemma_sum_spec_scaled(es, es.len() as int);
            crate::money::lemma_zero_scaled(match sum_spec(es, es.len() as int) {
                Some(m) => m,
                None => arbitrary(),
            });
        }
        if !total.is_zero() {
            return Err(TransactionError::NonZeroSum);
        }
        let tag_set = match Tags::from_iter(tags) {
            Ok(s) => s,
            Err(e) => {
                return Err(TransactionError::InvalidTag { name: e.name });
            },
        };
        proof {
            crate::tags::lemma_first_invalid_dedup_none(str_views(tags@));
        }
        let t = Transaction {
            date,
            edate: match edate {
                Some(d) => d,
                None => date,
            },
            who: String::from_str(who),
            what: String::from_str(what),
            entries,
            tags: tag_set,
        };
        proof {
            assert(t@ =~= (TransactionView {
                date,
                edate: match edate {
                    Some(d) => d,
                    None => date,
                },
                who: who@,
                what: what@,
                entries: es,
                tags: dedup_first(str_views(tags@)),
            }));
        }
        Ok(t)
    }
}

/// The exact sum of the entries' amounts, as [`sum_spec`] describes:
/// nothing when an intermediate exact sum does not fit the machine
/// integer.
pub fn sum(entries: &Vec<Entry>) -> (r: Option<Money>)
    requires
        entries@.len() >= 1,
        forall|k: int| 0 <= k < entries@.len() ==> entry_wf((#[trigger] entries@[k])@),
        forall|k: int|
            0 <= k < entries@.len() ==> (#[trigger] entries@[k])@.currency
                == entries@[0]@.currency,
    ensures
        ({
            let es = entry_views(entries@);
            match r {
                Some(m) => sum_spec(es, es.len() as int) == Some(m@),
                None => sum_spec(es, es.len() as int) is None,
            }
        }),
{
    let ghost es = entry_views(entries@);
    let n = entries.len();
    let mut acc = entries[0].money();
    let mut k: usize = 1;
    while k < n
        invariant
            1 <= k <= n,
            n == entries@.len(),
            es == entry_views(entries@),
            forall|t: int| 0 <= t < entries@.len() ==> entry_wf((#[trigger] entries@[t])@),
            forall|t: int|
                0 <= t < entries@.len() ==> (#[trigger] entries@[t])@.currency
                    == entries@[0]@.currency,
            sum_spec(es, k as int) == Some(acc@),
            money_wf(acc@),
            acc@.currency == entries@[0]@.currency,
        decreases n - k,
    {
        let m = entries[k].money();
        match acc.checked_add(&m) {
            Some(next) => {
                acc = next;
            },
            None => {
                proof {
                    assert(sum_spec(es, k + 1 as int) is None);
                    lemma_sum_spec_none(es, k + 1 as int, es.len() as int);
                }
                return None;
            },
        }
        k += 1;
    }
    Some(acc)
}

/// A renderable transaction: its dates and its entries' clearance dates
/// are within range.
pub open spec fn txn_wf(t: TransactionView) -> bool {
    &&& date_wf(t.date)
    &&& date_wf(t.edate)
    &&& (forall|k: int| 0 <= k < t.entries.len() ==> entry_wf(#[trigger] t.entries[k]))
}

/// The serialized text of one entry, its clearance date rendered against
/// the transaction's primary date.
pub open spec fn entry_chars(c: ChartView, e: EntryView, txdate: Date) -> Seq<char> {
    full_path_of(c.accounts, e.account) + seq![' ', ' '] + amount_chars(e.units, e.scale) + (if e.detail.len() > 0 {
        seq![' ', ';', ' '] + e.detail
    } else {
        Seq::empty()
    }) + (match e.cdate {
        Some(d) => seq![' ', '{'] + contextual_date_chars(d, txdate) + seq!['}'],
        None => Seq::empty(),
    })
}

/// The indented entry lines from index `k` on, one per entry.
pub open spec fn entries_chars(c: ChartView, es: Seq<EntryView>, txdate: Date, k: int) -> Seq<
    char,
>
    decreases es.len() - k,
{
    if 0 <= k < es.len() {
        seq![' ', ' ', ' '] + entry_chars(c, es[k], txdate) + seq!['\n'] + entries_chars(
            c,
            es,
            txdate,
            k + 1,
        )
    } else {
        Seq::empty()
    }
}

/// The header's who/what segment: both, separated by `; `, or whichever
/// is present.
pub open spec fn who_what_chars(who: Seq<char>, what: Seq<char>) -> Seq<char> {
    if who.len() > 0 && what.len() > 0 {
        seq![' '] + who + seq![';', ' '] + what
    } else if who.len() > 0 {
        seq![' '] + who
    } else if what.len() > 0 {
        seq![' ', ';', ' '] + what
    } else {
        Seq::empty()
    }
}

/// The serialized transaction, its tags rendered in the given order: the
/// primary date, the effective date where it differs (rendered
/// contextually), who and what, the tags, and one indented line per entry.
pub open spec fn transaction_chars(
    c: ChartView,
    t: TransactionView,
    tag_order: Seq<Seq<char>>,
) -> Seq<char> {
    date_chars(t.date) + (if t.edate != t.date {
        seq!['='] + contextual_date_chars(t.edate, t.date)
    } else {
        Seq::empty()
    }) + who_what_chars(t.who, t.what) + render_tags_seq(tag_order) + seq!['\n'] + entries_chars(
        c,
        t.entries,
        t.date,
        0,
    )
}

impl Transaction {
    /// Serializes the transaction against the chart its entries refer to,
    /// as [`transaction_chars`] describes, with the tags in natural sort
    /// order.
    #[verifier::rlimit(60)]
    pub fn render(&self, chart: &Chart) -> (r: String)
        requires
            chart.wf(),
            txn_wf(self@),
            forall|k: int|
                0 <= k < self@.entries.len() ==> 0 <= (#[trigger] self@.entries[k]).account
                    < chart@.accounts.len(),
        ensures
            exists|p: Seq<Seq<char>>|
                p.to_multiset() == self@.tags.to_multiset() && crate::tags::natural_sorted(p)
                    && r@ == transaction_chars(chart@, self@, p),
    {
        let ghost c = chart@;
        let ghost t = self@;
        let mut r = format_date(&self.date);
        if self.edate != self.date {
            crate::money::push_char(&mut r, '=');
            let ed = format_contextual_date(&self.edate, &self.date);
            r.append(ed.as_str());
        }
        let who_empty = self.who.as_str().is_empty();
        let what_empty = self.what.as_str().is_empty();
        if !who_empty && !what_empty {
            crate::money::push_char(&mut r, ' ');
            r.append(self.who.as_str());
            crate::money::push_char(&mut r, ';');
            crate::money::push_char(&mut r, ' ');
            r.append(self.what.as_str());
        } else if !who_empty {
            crate::money::push_char(&mut r, ' ');
            r.append(self.who.as_str());
        } else if !what_empty {
            crate::money::push_char(&mut r, ' ');
            crate::money::push_char(&mut r, ';');
            crate::money::push_char(&mut r, ' ');
            r.append(self.what.as_str());
        }
        let tags_r = self.tags.render();
        r.append(tags_r.as_str());
        crate::money::push_char(&mut r, '\n');
        let ghost tag_order = choose|p: Seq<Seq<char>>|
            p.to_multiset() == self@.tags.to_multiset() && crate::tags::natural_sorted(p)
                && tags_r@ == render_tags_seq(p);
        let ghost header = date_chars(t.date) + (if t.edate != t.date {
            seq!['='] + contextual_date_chars(t.edate, t.date)
        } else {
            Seq::empty()
        }) + who_what_chars(t.who, t.what) + render_tags_seq(tag_order) + seq!['\n'];
        proof {
            assert(r@ =~= header);
        }
        let n = self.entries.len();
        let mut k: usize = 0;
        while k < n
            invariant
                chart.wf(),
                c == chart@,
                t == self@,
                txn_wf(t),
                forall|j: int|
                    0 <= j < t.entries.len() ==> 0 <= (#[trigger] t.entries[j]).account
                        < c.accounts.len(),
                n == t.entries.len(),
                k <= n,
                r@ + entries_chars(c, t.entries, t.date, k as int) == header + entries_chars(
                    c,
                    t.entries,
                    t.date,
                    0,
                ),
            decreases n - k,
        {
            let e = &self.entries[k];
            let ghost r_old = r@;
            proof {
                assert(e@ == t.entries[k as int]);
                assert(entry_wf(e@));
            }
            crate::money::push_char(&mut r, ' ');
            crate::money::push_char(&mut r, ' ');
            crate::money::push_char(&mut r, ' ');
            let path = chart.full_name(e.account);
            r.append(path.as_str());
            crate::money::push_char(&mut r, ' ');
            crate::money::push_char(&mut r, ' ');
            let amt = render_amount(e.units, e.scale);
            r.append(amt.as_str());
            if !e.detail.as_str().is_empty() {
                crate::money::push_char(&mut r, ' ');
                crate::money::push_char(&mut r, ';');
                crate::money::push_char(&mut r, ' ');
                r.append(e.detail.as_str());
            }
            match &e.cdate {
                Some(d) => {
                    crate::money::push_char(&mut r, ' ');
                    crate::money::push_char(&mut r, '{');
                    let cd = format_contextual_date(d, &self.date);
                    r.append(cd.as_str());
                    crate::money::push_char(&mut r, '}');
                },
                None => {},
            }
            crate::money::push_char(&mut r, '\n');
            proof {
                let linek = seq![' ', ' ', ' '] + entry_chars(c, t.entries[k as int], t.date)
                    + seq!['\n'];
                assert(r@ =~= r_old + linek);
                assert(r@ + entries_chars(c, t.entries, t.date, k + 1 as int) =~= r_old
                    + entries_chars(c, t.entries, t.date, k as int));
            }
            k += 1;
        }
        proof {
            assert(entries_chars(c, t.entries, t.date, n as int) == Seq::<char>::empty());
            assert(r@ =~= header + entries_chars(c, t.entries, t.date, 0));
            assert(r@ =~= transaction_chars(c, t, tag_order));
            assert(tag_order.to_multiset() == t.tags.to_multiset());
        }
        r
    }
}

/// Once the running sum fails to fit, it stays failed.
proof fn lemma_sum_spec_none(es: Seq<EntryView>, k: int, n: int)
    requires
        1 <= k <= n <= es.len(),
        sum_spec(es, k) is None,
    ensures
        sum_spec(es, n) is None,
    decreases n - k,
{
    if k < n {
        lemma_sum_spec_none(es, k + 1, n);
    }
}

} // verus!
